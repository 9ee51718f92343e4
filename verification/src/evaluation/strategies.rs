//! Comparing parsing strategies: what runs, what is counted, and what is shown.
use crate::arguments;
use crate::arguments::{read, split_commas, Fault, Refuse, Shape, ValueRule};
use crate::evaluation::run_plan;
use crate::evaluation::run_plan::greatest;
use crate::evaluation::settings;
use crate::text;
use crate::text::{copy_text, starts_with, text_after, trimmed};
use vstd::prelude::*;

verus! {

/// A parsing strategy.
#[derive(Clone, Copy, PartialEq, Eq, Structural, Debug)]
pub enum Strategy {
    /// Top-down condensed intersection.
    TopDown,
    AstarZero,
    AstarOutside,
    AstarSx,
    AstarSxF,
}

impl Strategy {
    /// The name of a strategy.
    pub open spec fn called(self) -> Seq<char> {
        match self {
            Strategy::TopDown => "topdown"@,
            Strategy::AstarZero => "astar-zero"@,
            Strategy::AstarOutside => "astar-outside"@,
            Strategy::AstarSx => "astar-sx"@,
            Strategy::AstarSxF => "astar-sxf"@,
        }
    }

    /// The name of a strategy.
    pub fn name(self) -> (s: &'static str)
        ensures
            s@ == self.called(),
    {
        match self {
            Strategy::TopDown => "topdown",
            Strategy::AstarZero => "astar-zero",
            Strategy::AstarOutside => "astar-outside",
            Strategy::AstarSx => "astar-sx",
            Strategy::AstarSxF => "astar-sxf",
        }
    }

    /// The strategy with a name.
    pub fn parse(s: &String) -> (r: Option<Self>)
        ensures
            match r {
                Some(strategy) => strategy.called() == s@,
                None => forall|strategy: Strategy| #[trigger] strategy.called() != s@,
            },
    {
        if text::is_text(s, "topdown") {
            Some(Strategy::TopDown)
        } else if text::is_text(s, "astar-zero") {
            Some(Strategy::AstarZero)
        } else if text::is_text(s, "astar-outside") {
            Some(Strategy::AstarOutside)
        } else if text::is_text(s, "astar-sx") {
            Some(Strategy::AstarSx)
        } else if text::is_text(s, "astar-sxf") {
            Some(Strategy::AstarSxF)
        } else {
            None
        }
    }
}

/// The settings of a comparison.
#[derive(Debug)]
pub struct CompareArgs {
    pub grammar_path: String,
    pub sentences_path: Option<String>,
    pub strategies: Vec<Strategy>,
}

/// Why no comparison is set up.
#[derive(Debug)]
pub enum CompareFault {
    Arguments(Fault),
    /// No grammar is given.
    Usage,
}

/// Whether `shape` is that of the comparison program.
pub open spec fn is_compare_shape(shape: Shape) -> bool {
    let f = shape.flags@;
    &&& shape.help@.len() == 0
    &&& shape.refuse == Refuse::TwoDashes
    &&& shape.plain is None
    &&& f.len() == 1
    &&& settings::called(f[0].0@, seq!["--strategies"@])
    &&& f[0].1 matches ValueRule::ListOf(names)
    &&& settings::called(
        names@,
        seq![
            Strategy::TopDown.called(),
            Strategy::AstarZero.called(),
            Strategy::AstarOutside.called(),
            Strategy::AstarSx.called(),
            Strategy::AstarSxF.called(),
        ],
    )
}

/// What the comparison program accepts.
pub fn compare_shape() -> (shape: Shape)
    ensures
        is_compare_shape(shape),
{
    let mut flags: Vec<(Vec<&'static str>, ValueRule)> = Vec::new();
    flags.push(
        (
            vec!["--strategies"],
            ValueRule::ListOf(
                vec!["topdown", "astar-zero", "astar-outside", "astar-sx", "astar-sxf"],
            ),
        ),
    );
    Shape { help: Vec::new(), flags, refuse: Refuse::TwoDashes, plain: None }
}

/// The strategies that run where none are named.
pub open spec fn default_strategies() -> Seq<Strategy> {
    seq![Strategy::TopDown, Strategy::AstarZero, Strategy::AstarOutside, Strategy::AstarSx]
}

/// The names of strategies.
pub open spec fn strategy_names(list: Seq<Strategy>) -> Seq<Seq<char>> {
    Seq::new(list.len(), |i: int| list[i].called())
}

/// Sets up a comparison from its command line.
pub fn compare_args(args: &Vec<String>, shape: &Shape) -> (r: Result<CompareArgs, CompareFault>)
    requires
        is_compare_shape(*shape),
    ensures
        ({
            let list = arguments::steps(text::texts(args@), *shape);
            let plain = arguments::plain_texts(list);
            match r {
                Ok(found) => {
                    &&& arguments::in_order(list, *shape, list.len() as int)
                    &&& plain.len() > 0
                    &&& found.grammar_path@ == plain[0]
                    &&& if plain.len() > 1 {
                        found.sentences_path matches Some(s) && s@ == plain[1]
                    } else {
                        found.sentences_path is None
                    }
                    &&& match arguments::last_value(list, 0) {
                        Some(s) => strategy_names(found.strategies@) == arguments::comma_parts(s),
                        None => found.strategies@ == default_strategies(),
                    }
                },
                Err(CompareFault::Arguments(f)) => exists|i: int|
                    0 <= i < list.len() && #[trigger] arguments::fault_at(list, *shape, i)
                        == Some(f@) && arguments::in_order(list, *shape, i),
                Err(CompareFault::Usage) => arguments::in_order(list, *shape, list.len() as int)
                    && plain.len() == 0,
            }
        }),
{
    let parsed = match read(args, shape) {
        Ok(parsed) => parsed,
        Err(fault) => {
            return Err(CompareFault::Arguments(fault));
        },
    };
    let ghost list = arguments::steps(text::texts(args@), *shape);
    let ghost plain = arguments::plain_texts(list);
    proof {
        assert(list.take(list.len() as int) =~= list);
        settings::lemma_last_value(list, *shape, list.len() as int, 0);
        assert(text::texts(parsed.plain@).len() == parsed.plain@.len());
        assert(arguments::value_text(parsed.values@[0]) == arguments::last_value(list, 0));
    }
    if parsed.plain.len() == 0 {
        return Err(CompareFault::Usage);
    }
    assert(plain[0] == parsed.plain@[0]@);
    let mut sentences_path: Option<String> = None;
    if parsed.plain.len() > 1 {
        assert(plain[1] == parsed.plain@[1]@);
        sentences_path = Some(copy_text(&parsed.plain[1]));
    }
    let mut strategies: Vec<Strategy> = Vec::new();
    match &parsed.values[0] {
        Some(value) => {
            let parts = split_commas(value);
            let ghost all = text::texts(parts@);
            let ghost names = shape.flags@[0].1->ListOf_0@;
            proof {
                assert(arguments::first_unlisted(names, all) is None);
                assert(strategy_names(strategies@) =~= all.take(0));
                assert(all.skip(0) =~= all);
            }
            let mut i: usize = 0;
            while i < parts.len()
                invariant
                    i <= parts@.len(),
                    all == text::texts(parts@),
                    is_compare_shape(*shape),
                    names == shape.flags@[0].1->ListOf_0@,
                    arguments::first_unlisted(names, all.skip(i as int)) is None,
                    strategy_names(strategies@) == all.take(i as int),
                decreases parts@.len() - i,
            {
                proof {
                    assert(all.skip(i as int)[0] == parts@[i as int]@);
                    assert(all.skip(i as int).skip(1) =~= all.skip(i + 1));
                    assert(arguments::is_listed(names, parts@[i as int]@));
                    lemma_listed_name(*shape, parts@[i as int]@);
                }
                let ghost before = strategies@;
                if let Some(strategy) = Strategy::parse(&parts[i]) {
                    strategies.push(strategy);
                    assert(strategy_names(strategies@) =~= strategy_names(before).push(
                        parts@[i as int]@,
                    ));
                }
                i += 1;
                assert(all.take(i as int) =~= all.take(i - 1).push(parts@[i - 1]@));
            }
            assert(all.take(i as int) =~= all);
        },
        None => {
            strategies.push(Strategy::TopDown);
            strategies.push(Strategy::AstarZero);
            strategies.push(Strategy::AstarOutside);
            strategies.push(Strategy::AstarSx);
            assert(strategies@ =~= default_strategies());
        },
    }
    Ok(CompareArgs { grammar_path: copy_text(&parsed.plain[0]), sentences_path, strategies })
}

/// A listed name is that of a strategy.
proof fn lemma_listed_name(shape: Shape, s: Seq<char>)
    requires
        is_compare_shape(shape),
        arguments::is_listed(shape.flags@[0].1->ListOf_0@, s),
    ensures
        exists|strategy: Strategy| #[trigger] strategy.called() == s,
{
    let names = shape.flags@[0].1->ListOf_0@;
    let i = choose|i: int| 0 <= i < names.len() && (#[trigger] names[i])@ == s;
    if i == 0 {
        assert(Strategy::TopDown.called() == s);
    } else if i == 1 {
        assert(Strategy::AstarZero.called() == s);
    } else if i == 2 {
        assert(Strategy::AstarOutside.called() == s);
    } else if i == 3 {
        assert(Strategy::AstarSx.called() == s);
    } else {
        assert(Strategy::AstarSxF.called() == s);
    }
}

/// What a strategy needs before it can run, and whether it runs at all.
#[derive(Clone, Copy, PartialEq, Eq, Structural, Debug)]
pub struct StrategyPlan {
    /// Nothing is run: the strategy needs a sentence with words.
    pub skipped: bool,
    pub prepared_grammar: bool,
    pub outside: bool,
    /// The longest sentence, where a table is needed for it.
    pub sx_length: Option<usize>,
    pub obligations: bool,
}

/// Whether a strategy needs a table for the length of the sentences.
pub open spec fn needs_table(strategy: Strategy) -> bool {
    strategy == Strategy::AstarSx || strategy == Strategy::AstarSxF
}

/// Plans the run of a strategy on sentences with these lengths.
pub fn plan_strategy(strategy: Strategy, lengths: &Vec<usize>) -> (r: StrategyPlan)
    ensures
        exists|longest: usize| #[trigger]
            run_plan::is_greatest(lengths@, longest) && r == (StrategyPlan {
                skipped: needs_table(strategy) && longest == 0,
                prepared_grammar: strategy != Strategy::TopDown,
                outside: strategy == Strategy::AstarOutside,
                sx_length: if needs_table(strategy) && longest > 0 {
                    Some(longest)
                } else {
                    None
                },
                obligations: strategy == Strategy::AstarSxF && longest > 0,
            }),
{
    let longest: usize = greatest(lengths);
    let table = strategy == Strategy::AstarSx || strategy == Strategy::AstarSxF;
    StrategyPlan {
        skipped: table && longest == 0,
        prepared_grammar: strategy != Strategy::TopDown,
        outside: strategy == Strategy::AstarOutside,
        sx_length: if table && longest > 0 {
            Some(longest)
        } else {
            None
        },
        obligations: strategy == Strategy::AstarSxF && longest > 0,
    }
}

/// The sentences among lines, trimmed and numbered from one: lines that are not blank.
pub open spec fn numbered(lines: Seq<Seq<char>>) -> Seq<(int, Seq<char>)>
    decreases lines.len(),
{
    if lines.len() == 0 {
        Seq::empty()
    } else {
        let earlier = numbered(lines.drop_last());
        if text::trim(lines.last()).len() == 0 {
            earlier
        } else {
            earlier.push((earlier.len() as int + 1, text::trim(lines.last())))
        }
    }
}

/// The models of numbered sentences.
pub open spec fn sentence_models(list: Seq<(usize, String)>) -> Seq<(int, Seq<char>)> {
    Seq::new(list.len(), |i: int| (list[i].0 as int, list[i].1@))
}

/// Trims and numbers the sentences among lines.
pub fn number_sentences(lines: &Vec<String>) -> (r: Vec<(usize, String)>)
    ensures
        sentence_models(r@) == numbered(text::texts(lines@)),
{
    let ghost all = text::texts(lines@);
    let mut r: Vec<(usize, String)> = Vec::new();
    let mut i: usize = 0;
    assert(all.take(0) =~= Seq::empty());
    assert(sentence_models(r@) =~= Seq::empty());
    while i < lines.len()
        invariant
            i <= lines@.len(),
            all == text::texts(lines@),
            r@.len() <= i,
            sentence_models(r@) == numbered(all.take(i as int)),
        decreases lines@.len() - i,
    {
        let ghost before = r@;
        proof {
            assert(all.take(i + 1).drop_last() =~= all.take(i as int));
            assert(all.take(i + 1).last() == lines@[i as int]@);
            assert(sentence_models(r@).len() == r@.len());
        }
        let sentence = trimmed(lines[i].as_str());
        let length: usize = text::chars_of(sentence.as_str()).len();
        if length > 0 {
            let number: usize = r.len() + 1;
            let ghost shown = sentence@;
            r.push((number, sentence));
            assert(sentence_models(r@) =~= sentence_models(before).push((number as int, shown)));
        }
        i += 1;
    }
    assert(all.take(i as int) =~= all);
    r
}

/// The bar of a progress display: filled and empty places, and per cent.
pub fn progress(done: usize, total: usize) -> (r: (usize, usize, usize))
    requires
        done <= total,
        total <= usize::MAX / 100,
    ensures
        r.0 == (if total == 0 {
            32
        } else {
            32 * done / total as int
        }),
        r.0 + r.1 == 32,
        r.2 == (if total == 0 {
            100
        } else {
            100 * done / total as int
        }),
{
    if total == 0 {
        return (32, 0, 100);
    }
    proof {
        assert(32 * done / total as int <= 32) by (nonlinear_arith)
            requires
                0 <= done <= total,
                total > 0,
        ;
        assert(32 * done / total as int >= 0) by (nonlinear_arith)
            requires
                0 <= done,
                total > 0,
        ;
    }
    let filled: usize = 32 * done / total;
    (filled, 32 - filled, 100 * done / total)
}

/// The length that the name of a cached table gives, without its extension.
pub fn cached_length(stem: &str) -> (r: Option<usize>)
    ensures
        if text::stands_at(stem@, "nmax"@, 0) {
            match r {
                Some(n) => arguments::spelled_number(stem@.skip("nmax"@.len() as int)) == Some(
                    n as nat,
                ),
                None => arguments::spelled_number(stem@.skip("nmax"@.len() as int)) is None,
            }
        } else {
            r is None
        },
{
    if !starts_with(stem, "nmax") {
        return None;
    }
    proof {
        reveal_strlit("nmax");
    }
    let rest = text_after(stem, 4);
    arguments::parse_usize(rest.as_str())
}

/// Whether table `i` is tried before table `j`: it is smaller, or as large and earlier.
pub open spec fn tried_before(lengths: Seq<usize>, i: usize, j: usize) -> bool {
    lengths[i as int] < lengths[j as int] || (lengths[i as int] == lengths[j as int] && i < j)
}

/// The cached tables that are long enough, the smallest first.
pub fn covering_tables(lengths: &Vec<usize>, needed: usize) -> (r: Vec<usize>)
    ensures
        forall|k: int|
            0 <= k < r@.len() ==> (#[trigger] r@[k]) < lengths@.len() && lengths@[r@[k] as int]
                >= needed,
        forall|i: usize|
            i < lengths@.len() && #[trigger] lengths@[i as int] >= needed ==> r@.contains(i),
        forall|k: int, l: int| 0 <= k < l < r@.len() ==> tried_before(lengths@, r@[k], r@[l]),
{
    let mut r: Vec<usize> = Vec::new();
    let mut i: usize = 0;
    while i < lengths.len()
        invariant
            i <= lengths@.len(),
            forall|k: int|
                0 <= k < r@.len() ==> (#[trigger] r@[k]) < i && lengths@[r@[k] as int] >= needed,
            forall|j: usize| j < i && #[trigger] lengths@[j as int] >= needed ==> r@.contains(j),
            forall|k: int, l: int| 0 <= k < l < r@.len() ==> tried_before(lengths@, r@[k], r@[l]),
        decreases lengths@.len() - i,
    {
        let ghost before = r@;
        if lengths[i] >= needed {
            let mut at: usize = r.len();
            while at > 0 && lengths[r[at - 1]] > lengths[i]
                invariant
                    at <= r@.len(),
                    r@ == before,
                    i < lengths@.len(),
                    forall|k: int|
                        0 <= k < r@.len() ==> (#[trigger] r@[k]) < i && lengths@[r@[k] as int]
                            >= needed,
                    forall|k: int, l: int|
                        0 <= k < l < r@.len() ==> tried_before(lengths@, r@[k], r@[l]),
                    forall|k: int|
                        at <= k < r@.len() ==> lengths@[#[trigger] r@[k] as int]
                            > lengths@[i as int],
                decreases at,
            {
                at -= 1;
            }
            r.insert(at, i);
            proof {
                assert forall|j: usize|
                    j < i + 1 && #[trigger] lengths@[j as int] >= needed implies r@.contains(j) by {
                    if j < i {
                        assert(before.contains(j));
                        let k = choose|k: int| 0 <= k < before.len() && before[k] == j;
                        let l = if k < at { k } else { k + 1 };
                        assert(r@[l] == j);
                    } else {
                        assert(r@[at as int] == i);
                    }
                }
                assert forall|k: int, l: int| 0 <= k < l < r@.len() implies tried_before(
                    lengths@,
                    r@[k],
                    r@[l],
                ) by {
                    let a = if k < at { k } else { k - 1 };
                    let b = if l < at { l } else { l - 1 };
                    if k == at {
                        assert(r@[l] == before[b]);
                    } else if l == at {
                        assert(r@[k] == before[a]);
                        assert(at > 0);
                        if a < at - 1 {
                            assert(tried_before(lengths@, before[a], before[at - 1]));
                        }
                    } else {
                        assert(r@[k] == before[a] && r@[l] == before[b]);
                    }
                }
            }
        }
        i += 1;
    }
    r
}

/// What a search counts.
#[derive(Clone, Copy, PartialEq, Eq, Structural, Debug, Default)]
pub struct Counters {
    pub finalized_states: usize,
    pub output_rules: usize,
    pub heap_pushes: usize,
    pub heap_updates: usize,
    pub pops: usize,
    pub stale_pops: usize,
    pub reopen_attempts: usize,
    pub right_indexed_queries: usize,
    pub right_rules_scanned: usize,
    pub rotated_left_join_queries: usize,
    pub left_rule_matches: usize,
    pub candidate_edges: usize,
    pub dominated_candidates: usize,
    pub finalized_candidate_discards: usize,
    pub f_filtered_candidates: usize,
    pub sibling_tuple_queries: usize,
    pub sibling_tuples_returned: usize,
    pub right_step_calls: usize,
    pub right_step_results: usize,
    pub right_step_evals: usize,
    pub right_step_memo_hits: usize,
    pub sibling_fallback_expansions: usize,
}

impl Counters {
    /// Whether all sums fit.
    pub open spec fn sums_fit(self, r: Counters) -> bool {
        &&& self.finalized_states + r.finalized_states <= usize::MAX
        &&& self.output_rules + r.output_rules <= usize::MAX
        &&& self.heap_pushes + r.heap_pushes <= usize::MAX
        &&& self.heap_updates + r.heap_updates <= usize::MAX
        &&& self.pops + r.pops <= usize::MAX
        &&& self.stale_pops + r.stale_pops <= usize::MAX
        &&& self.reopen_attempts + r.reopen_attempts <= usize::MAX
        &&& self.right_indexed_queries + r.right_indexed_queries <= usize::MAX
        &&& self.right_rules_scanned + r.right_rules_scanned <= usize::MAX
        &&& self.rotated_left_join_queries + r.rotated_left_join_queries <= usize::MAX
        &&& self.left_rule_matches + r.left_rule_matches <= usize::MAX
        &&& self.candidate_edges + r.candidate_edges <= usize::MAX
        &&& self.dominated_candidates + r.dominated_candidates <= usize::MAX
        &&& self.finalized_candidate_discards + r.finalized_candidate_discards <= usize::MAX
        &&& self.f_filtered_candidates + r.f_filtered_candidates <= usize::MAX
        &&& self.sibling_tuple_queries + r.sibling_tuple_queries <= usize::MAX
        &&& self.sibling_tuples_returned + r.sibling_tuples_returned <= usize::MAX
        &&& self.right_step_calls + r.right_step_calls <= usize::MAX
        &&& self.right_step_results + r.right_step_results <= usize::MAX
        &&& self.right_step_evals + r.right_step_evals <= usize::MAX
        &&& self.right_step_memo_hits + r.right_step_memo_hits <= usize::MAX
        &&& self.sibling_fallback_expansions + r.sibling_fallback_expansions <= usize::MAX
    }

    /// The sums of the counters.
    pub open spec fn sum(self, r: Counters) -> Counters {
        Counters {
            finalized_states: (self.finalized_states + r.finalized_states) as usize,
            output_rules: (self.output_rules + r.output_rules) as usize,
            heap_pushes: (self.heap_pushes + r.heap_pushes) as usize,
            heap_updates: (self.heap_updates + r.heap_updates) as usize,
            pops: (self.pops + r.pops) as usize,
            stale_pops: (self.stale_pops + r.stale_pops) as usize,
            reopen_attempts: (self.reopen_attempts + r.reopen_attempts) as usize,
            right_indexed_queries: (self.right_indexed_queries + r.right_indexed_queries) as usize,
            right_rules_scanned: (self.right_rules_scanned + r.right_rules_scanned) as usize,
            rotated_left_join_queries: (self.rotated_left_join_queries + r.rotated_left_join_queries) as usize,
            left_rule_matches: (self.left_rule_matches + r.left_rule_matches) as usize,
            candidate_edges: (self.candidate_edges + r.candidate_edges) as usize,
            dominated_candidates: (self.dominated_candidates + r.dominated_candidates) as usize,
            finalized_candidate_discards: (self.finalized_candidate_discards + r.finalized_candidate_discards) as usize,
            f_filtered_candidates: (self.f_filtered_candidates + r.f_filtered_candidates) as usize,
            sibling_tuple_queries: (self.sibling_tuple_queries + r.sibling_tuple_queries) as usize,
            sibling_tuples_returned: (self.sibling_tuples_returned + r.sibling_tuples_returned) as usize,
            right_step_calls: (self.right_step_calls + r.right_step_calls) as usize,
            right_step_results: (self.right_step_results + r.right_step_results) as usize,
            right_step_evals: (self.right_step_evals + r.right_step_evals) as usize,
            right_step_memo_hits: (self.right_step_memo_hits + r.right_step_memo_hits) as usize,
            sibling_fallback_expansions: (self.sibling_fallback_expansions + r.sibling_fallback_expansions) as usize,
        }
    }

    /// Nothing counted.
    pub open spec fn nothing() -> Counters {
        Counters {
            finalized_states: 0,
            output_rules: 0,
            heap_pushes: 0,
            heap_updates: 0,
            pops: 0,
            stale_pops: 0,
            reopen_attempts: 0,
            right_indexed_queries: 0,
            right_rules_scanned: 0,
            rotated_left_join_queries: 0,
            left_rule_matches: 0,
            candidate_edges: 0,
            dominated_candidates: 0,
            finalized_candidate_discards: 0,
            f_filtered_candidates: 0,
            sibling_tuple_queries: 0,
            sibling_tuples_returned: 0,
            right_step_calls: 0,
            right_step_results: 0,
            right_step_evals: 0,
            right_step_memo_hits: 0,
            sibling_fallback_expansions: 0,
        }
    }

    /// Nothing counted.
    pub fn zero() -> (r: Self)
        ensures
            r == Counters::nothing(),
    {
        Counters {
            finalized_states: 0,
            output_rules: 0,
            heap_pushes: 0,
            heap_updates: 0,
            pops: 0,
            stale_pops: 0,
            reopen_attempts: 0,
            right_indexed_queries: 0,
            right_rules_scanned: 0,
            rotated_left_join_queries: 0,
            left_rule_matches: 0,
            candidate_edges: 0,
            dominated_candidates: 0,
            finalized_candidate_discards: 0,
            f_filtered_candidates: 0,
            sibling_tuple_queries: 0,
            sibling_tuples_returned: 0,
            right_step_calls: 0,
            right_step_results: 0,
            right_step_evals: 0,
            right_step_memo_hits: 0,
            sibling_fallback_expansions: 0,
        }
    }

    /// Adds what was counted for one sentence.
    pub fn record(&mut self, r: &Counters)
        requires
            old(self).sums_fit(*r),
        ensures
            *final(self) == old(self).sum(*r),
    {
        self.finalized_states += r.finalized_states;
        self.output_rules += r.output_rules;
        self.heap_pushes += r.heap_pushes;
        self.heap_updates += r.heap_updates;
        self.pops += r.pops;
        self.stale_pops += r.stale_pops;
        self.reopen_attempts += r.reopen_attempts;
        self.right_indexed_queries += r.right_indexed_queries;
        self.right_rules_scanned += r.right_rules_scanned;
        self.rotated_left_join_queries += r.rotated_left_join_queries;
        self.left_rule_matches += r.left_rule_matches;
        self.candidate_edges += r.candidate_edges;
        self.dominated_candidates += r.dominated_candidates;
        self.finalized_candidate_discards += r.finalized_candidate_discards;
        self.f_filtered_candidates += r.f_filtered_candidates;
        self.sibling_tuple_queries += r.sibling_tuple_queries;
        self.sibling_tuples_returned += r.sibling_tuples_returned;
        self.right_step_calls += r.right_step_calls;
        self.right_step_results += r.right_step_results;
        self.right_step_evals += r.right_step_evals;
        self.right_step_memo_hits += r.right_step_memo_hits;
        self.sibling_fallback_expansions += r.sibling_fallback_expansions;
    }

    /// Whether all sums fit.
    pub fn can_record(&self, r: &Counters) -> (b: bool)
        ensures
            b == self.sums_fit(*r),
    {
        self.finalized_states <= usize::MAX - r.finalized_states
            && self.output_rules <= usize::MAX - r.output_rules
            && self.heap_pushes <= usize::MAX - r.heap_pushes
            && self.heap_updates <= usize::MAX - r.heap_updates
            && self.pops <= usize::MAX - r.pops
            && self.stale_pops <= usize::MAX - r.stale_pops
            && self.reopen_attempts <= usize::MAX - r.reopen_attempts
            && self.right_indexed_queries <= usize::MAX - r.right_indexed_queries
            && self.right_rules_scanned <= usize::MAX - r.right_rules_scanned
            && self.rotated_left_join_queries <= usize::MAX - r.rotated_left_join_queries
            && self.left_rule_matches <= usize::MAX - r.left_rule_matches
            && self.candidate_edges <= usize::MAX - r.candidate_edges
            && self.dominated_candidates <= usize::MAX - r.dominated_candidates
            && self.finalized_candidate_discards <= usize::MAX - r.finalized_candidate_discards
            && self.f_filtered_candidates <= usize::MAX - r.f_filtered_candidates
            && self.sibling_tuple_queries <= usize::MAX - r.sibling_tuple_queries
            && self.sibling_tuples_returned <= usize::MAX - r.sibling_tuples_returned
            && self.right_step_calls <= usize::MAX - r.right_step_calls
            && self.right_step_results <= usize::MAX - r.right_step_results
            && self.right_step_evals <= usize::MAX - r.right_step_evals
            && self.right_step_memo_hits <= usize::MAX - r.right_step_memo_hits
            && self.sibling_fallback_expansions <= usize::MAX - r.sibling_fallback_expansions
    }

    /// Whether the search counted anything about its own work.
    pub fn has_internals(&self) -> (b: bool)
        ensures
            b == (
            self.right_indexed_queries > 0
                || self.right_rules_scanned > 0
                || self.rotated_left_join_queries > 0
                || self.left_rule_matches > 0
                || self.candidate_edges > 0
                || self.heap_updates > 0
                || self.stale_pops > 0
                || self.dominated_candidates > 0
                || self.finalized_candidate_discards > 0
                || self.f_filtered_candidates > 0
                || self.sibling_tuple_queries > 0
                || self.sibling_tuples_returned > 0
                || self.right_step_calls > 0
                || self.right_step_results > 0
                || self.sibling_fallback_expansions > 0),
    {
        self.right_indexed_queries > 0
            || self.right_rules_scanned > 0
            || self.rotated_left_join_queries > 0
            || self.left_rule_matches > 0
            || self.candidate_edges > 0
            || self.heap_updates > 0
            || self.stale_pops > 0
            || self.dominated_candidates > 0
            || self.finalized_candidate_discards > 0
            || self.f_filtered_candidates > 0
            || self.sibling_tuple_queries > 0
            || self.sibling_tuples_returned > 0
            || self.right_step_calls > 0
            || self.right_step_results > 0
            || self.sibling_fallback_expansions > 0
    }

    /// What a chart counts: its states and rules, where it has been measured.
    pub fn of_chart(size: Option<(usize, usize)>) -> (r: Self)
        ensures
            r == (match size {
                Some((states, rules)) => Counters {
                    finalized_states: states,
                    output_rules: rules,
                    ..Counters::nothing()
                },
                None => Counters::nothing(),
            }),
    {
        let mut r = Counters::zero();
        if let Some((states, rules)) = size {
            r.finalized_states = states;
            r.output_rules = rules;
        }
        r
    }
}

/// Recording two sentences in either order gives the same sums.
pub proof fn law_recording_order_does_not_matter(start: Counters, x: Counters, y: Counters)
    requires
        start.sums_fit(x),
        start.sum(x).sums_fit(y),
        start.sums_fit(y),
        start.sum(y).sums_fit(x),
    ensures
        start.sum(x).sum(y) == start.sum(y).sum(x),
{
}

} // verus!
