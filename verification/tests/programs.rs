//! Tests of what the programs accept, plan and count.
use rusty_alto::evaluation::tally::{tally, ParsevalCounts, ParsevalSkip, SentenceOutcome};
use rusty_alto::arguments::{parse_usize, read, split_commas, Fault, Refuse, Shape, ValueRule};
use rusty_alto::bench::comparison::{
    condensed_args, condensed_shape, pair_args, pair_shape, ComparisonFault, DecompMode,
    IntersectionMode, PairAlgorithm,
};
use rusty_alto::bench::lexicon::{
    binary_symbols, lexical_symbols, sentence_symbols, string_homomorphism, string_terms, words,
};
use rusty_alto::bench::tree_runs::{
    is_deterministic, parse_tree, parse_tree_lines, run_all_det, run_all_nondet, LineFault,
};
use rusty_alto::bench::tree_settings::{tree_args, tree_shape, TreeArgsFault};
use rusty_alto::bench::tree_text::{spell, TreeFault};
use rusty_alto::bench::workload::{
    bin_symbol, grammar_automaton, lex_symbol, span_automaton, word_symbol, CONCAT,
};
use rusty_alto::builder::ExplicitBuilder;
use rusty_alto::combinators::invhom::InvHom;
use rusty_alto::evaluation::calendar::{civil_from_days, utc_text};
use rusty_alto::evaluation::results::in_order;
use rusty_alto::evaluation::run_plan::{
    choose_name, choose_primary, greatest, header_comments, parseval_request, plan_run, resources,
    word_count, ParsevalFault, RunFault, TreeInterpretationKind,
};
use rusty_alto::evaluation::settings::{
    algorithm_label, eval_args, eval_shape, heuristic_label, Algorithm, EvalArgs, EvalFault,
    Heuristic,
};
use rusty_alto::obligations::settings::examples_wanted;
use rusty_alto::evaluation::strategies::{
    cached_length, compare_args, compare_shape, covering_tables, number_sentences, plan_strategy,
    progress, CompareFault, Counters, Strategy,
};
use rusty_alto::ids::{StateId, Symbol};
use rusty_alto::intersection::algorithms::{intersect_condensed, intersect_naive, intersect_sibling};
use rusty_alto::signature::Signature;
use rusty_alto::traits::BottomUpTa;

fn list(items: &[&str]) -> Vec<String> {
    items.iter().map(|item| item.to_string()).collect()
}

fn evaluation(items: &[&str]) -> Result<EvalArgs, EvalFault> {
    eval_args(&list(items), &eval_shape(), 4)
}

#[test]
fn numbers_are_spelled_in_decimal() {
    assert_eq!(parse_usize("0"), Some(0));
    assert_eq!(parse_usize("+42"), Some(42));
    assert_eq!(parse_usize("18446744073709551615"), Some(usize::MAX));
    assert_eq!(parse_usize("18446744073709551616"), None);
    assert_eq!(parse_usize(""), None);
    assert_eq!(parse_usize("+"), None);
    assert_eq!(parse_usize("-1"), None);
    assert_eq!(parse_usize("1x"), None);
}

#[test]
fn commas_separate_parts() {
    assert_eq!(split_commas(&"a,b,,c".to_string()), vec!["a", "b", "", "c"]);
    assert_eq!(split_commas(&String::new()), vec![""]);
}

#[test]
fn flags_are_read_and_faults_reported_in_order() {
    let shape = || Shape {
        help: vec!["-h"],
        flags: vec![
            (vec!["-n", "--number"], ValueRule::Positive),
            (vec!["--choice"], ValueRule::OneOf(vec!["a", "b"])),
        ],
        refuse: Refuse::Dash,
        plain: Some(1),
    };
    let parsed = read(&list(&["-n", "1", "file", "--number", "2"]), &shape()).unwrap();
    assert_eq!(parsed.values, vec![Some("2".to_string()), None]);
    assert_eq!(parsed.plain, vec!["file"]);
    assert!(matches!(read(&list(&["-h", "-x"]), &shape()), Err(Fault::Help)));
    assert!(matches!(read(&list(&["-x", "-h"]), &shape()), Err(Fault::Unknown(s)) if s == "-x"));
    assert!(matches!(read(&list(&["-n"]), &shape()), Err(Fault::Missing(0, s)) if s == "-n"));
    assert!(matches!(read(&list(&["-n", "x"]), &shape()), Err(Fault::NotANumber(0, _))));
    assert!(matches!(read(&list(&["-n", "0"]), &shape()), Err(Fault::NotPositive(0))));
    assert!(matches!(
        read(&list(&["--choice", "c"]), &shape()),
        Err(Fault::Unlisted(1, s)) if s == "c"
    ));
    assert!(matches!(
        read(&list(&["one", "two"]), &shape()),
        Err(Fault::Unexpected(s)) if s == "two"
    ));
}

#[test]
fn evaluation_settings_have_defaults() {
    let args = evaluation(&["g.irtg", "c.txt"]).unwrap();
    assert_eq!(args.grammar, "g.irtg");
    assert_eq!(args.corpus, "c.txt");
    assert_eq!(args.algorithm, Algorithm::Exhaustive);
    assert_eq!(args.heuristic, Heuristic::Zero);
    assert_eq!(args.jobs, 4);
    assert_eq!(args.limit, None);
    assert_eq!(algorithm_label(args.algorithm), "exhaustive");
    assert_eq!(heuristic_label(args.heuristic), "zero");
}

#[test]
fn evaluation_settings_are_read() {
    let args = evaluation(&[
        "--algorithm", "astar", "g", "--heuristic", "sxf", "c", "--jobs", "7", "--limit", "3",
        "-o", "out", "--times", "t", "--input", "i",
    ])
    .unwrap();
    assert_eq!(args.algorithm, Algorithm::Astar);
    assert_eq!(args.heuristic, Heuristic::Sxf);
    assert_eq!(args.jobs, 7);
    assert_eq!(args.limit, Some(3));
    assert_eq!(args.output.as_deref(), Some("out"));
    assert_eq!(args.times.as_deref(), Some("t"));
    assert_eq!(args.input.as_deref(), Some("i"));
}

#[test]
fn incomplete_evaluation_settings_are_refused() {
    assert!(matches!(evaluation(&[]), Err(EvalFault::MissingGrammar)));
    assert!(matches!(evaluation(&["g"]), Err(EvalFault::MissingCorpus)));
    assert!(matches!(
        evaluation(&["g", "c", "--jobs", "0"]),
        Err(EvalFault::Arguments(Fault::NotPositive(_)))
    ));
    assert!(matches!(
        evaluation(&["g", "c", "d"]),
        Err(EvalFault::Arguments(Fault::Unexpected(_)))
    ));
}

#[test]
fn primary_interpretation_is_chosen_by_name() {
    assert_eq!(choose_primary(&list(&["a", "english", "i"])), "english");
    assert_eq!(choose_primary(&list(&["a", "i"])), "i");
    assert_eq!(choose_primary(&list(&["b", "a"])), "b");
    assert_eq!(choose_name(&list(&[]), &vec!["i"]), None);
}

#[test]
fn runs_are_planned_from_the_declared_interpretations() {
    let mut args = evaluation(&["g", "c"]).unwrap();
    let order = list(&["tree", "i"]);
    let plan = plan_run(&args, &order, &vec![false, true]).unwrap();
    assert_eq!(plan.inputable, vec!["i"]);
    assert_eq!(plan.primary, "i");
    assert!(matches!(
        plan_run(&args, &order, &vec![false, false]),
        Err(RunFault::NothingToParse)
    ));
    assert!(matches!(
        plan_run(&args, &vec![], &vec![]),
        Err(RunFault::NoInterpretations)
    ));
    args.input = Some("tree".to_string());
    assert_eq!(plan_run(&args, &order, &vec![false, true]).unwrap().primary, "tree");
    args.algorithm = Algorithm::Astar;
    args.heuristic = Heuristic::Sx;
    assert!(matches!(
        plan_run(&args, &order, &vec![false, true]),
        Err(RunFault::NotInputable(name)) if name == "tree"
    ));
    args.input = None;
    args.parseval = Some("gold".to_string());
    assert!(matches!(
        plan_run(&args, &order, &vec![false, true]),
        Err(RunFault::UndeclaredParseval(name)) if name == "gold"
    ));
}

#[test]
fn parseval_needs_a_tree_interpretation() {
    let mut args = evaluation(&["g", "c"]).unwrap();
    assert!(matches!(parseval_request(&args, None), Ok(None)));
    args.parseval = Some("t".to_string());
    assert!(matches!(parseval_request(&args, None), Err(ParsevalFault::UnknownInterpretation)));
    let string = "de.up.ling.irtg.algebra.StringAlgebra".to_string();
    assert!(matches!(parseval_request(&args, Some(&string)), Err(ParsevalFault::NoTrees)));
    let tree = "de.up.ling.irtg.algebra.TreeWithAritiesAlgebra".to_string();
    assert!(matches!(
        parseval_request(&args, Some(&tree)),
        Ok(Some(TreeInterpretationKind::Plain))
    ));
}

#[test]
fn search_resources_depend_on_the_heuristic() {
    let none = resources(Algorithm::Exhaustive, Heuristic::Sxf);
    assert!(!none.prepared_grammar && !none.outside && !none.sx_table && !none.obligations);
    let outside = resources(Algorithm::Astar, Heuristic::Outside);
    assert!(outside.prepared_grammar && outside.outside && !outside.sx_table);
    let filter = resources(Algorithm::Astar, Heuristic::Sxf);
    assert!(filter.sx_table && filter.obligations);
    assert_eq!(greatest(&vec![3, 9, 4]), 9);
    assert_eq!(greatest(&vec![]), 0);
    assert_eq!(word_count(Some(" a  b ")), 2);
    assert_eq!(word_count(None), 0);
}

#[test]
fn dates_follow_the_calendar() {
    assert_eq!(civil_from_days(0), (1970, 1, 1));
    assert_eq!(civil_from_days(59), (1970, 3, 1));
    assert_eq!(civil_from_days(11_016), (2000, 2, 29));
    assert_eq!(civil_from_days(11_017), (2000, 3, 1));
    assert_eq!(civil_from_days(19_722), (2023, 12, 31));
    assert!(utc_text(951_782_400).contains("2000-02-29"));
    let args = evaluation(&["g", "c"]).unwrap();
    let comments = header_comments(&args, &"i".to_string(), &utc_text(0));
    assert!(comments.iter().any(|line| line.contains("1970-01-01")));
}

#[test]
fn worker_results_are_put_in_order() {
    let results: Vec<Result<(usize, &str), u8>> = vec![Ok((2, "c")), Ok((0, "a")), Ok((1, "b"))];
    assert_eq!(in_order(3, results), Ok(vec!["a", "b", "c"]));
    let results: Vec<Result<(usize, &str), u8>> = vec![Ok((1, "b")), Err(7), Err(8)];
    assert!(in_order(3, results).is_err());
}

#[test]
fn strategies_are_named_and_compared() {
    for strategy in [
        Strategy::TopDown,
        Strategy::AstarZero,
        Strategy::AstarOutside,
        Strategy::AstarSx,
        Strategy::AstarSxF,
    ] {
        assert_eq!(Strategy::parse(&strategy.name().to_string()), Some(strategy));
    }
    assert_eq!(Strategy::parse(&"best".to_string()), None);
    let args = compare_args(&list(&["g", "--strategies", "astar-sx,topdown"]), &compare_shape());
    let args = args.unwrap();
    assert_eq!(args.strategies, vec![Strategy::AstarSx, Strategy::TopDown]);
    assert_eq!(args.sentences_path, None);
    assert!(matches!(
        compare_args(&list(&[]), &compare_shape()),
        Err(CompareFault::Usage)
    ));
    assert!(matches!(
        compare_args(&list(&["g", "--strategies", "x"]), &compare_shape()),
        Err(CompareFault::Arguments(Fault::Unlisted(0, _)))
    ));
}

#[test]
fn strategies_are_planned_for_the_longest_sentence() {
    let plan = plan_strategy(Strategy::AstarSxF, &vec![3, 8, 5]);
    assert_eq!(plan.sx_length, Some(8));
    assert!(plan.obligations && plan.prepared_grammar && !plan.outside && !plan.skipped);
    assert!(plan_strategy(Strategy::AstarSx, &vec![]).skipped);
    assert!(!plan_strategy(Strategy::TopDown, &vec![4]).prepared_grammar);
    assert_eq!(cached_length("nmax12"), Some(12));
    assert_eq!(cached_length("max12"), None);
    assert_eq!(covering_tables(&vec![9, 3, 5, 7], 5), vec![2, 3, 0]);
    assert_eq!(progress(1, 4), (8, 24, 25));
    assert_eq!(progress(0, 0), (32, 0, 100));
    assert_eq!(
        number_sentences(&list(&[" a b ", "", "c"])),
        vec![(1, "a b".to_string()), (2, "c".to_string())]
    );
}

#[test]
fn recording_adds_up_in_any_order() {
    let mut first = Counters::zero();
    first.pops = 3;
    first.candidate_edges = 4;
    let mut second = Counters::zero();
    second.pops = 5;
    let mut left = Counters::zero();
    left.record(&first);
    left.record(&second);
    let mut right = Counters::zero();
    right.record(&second);
    right.record(&first);
    assert_eq!(left.pops, 8);
    assert_eq!(left.pops, right.pops);
    assert_eq!(left.candidate_edges, right.candidate_edges);
    let chart = Counters::of_chart(Some((10, 20)));
    assert_eq!((chart.finalized_states, chart.output_rules), (10, 20));
    assert!(!chart.has_internals());
    assert!(left.has_internals());
}

#[test]
fn comparison_settings_are_read() {
    let args = pair_args(&list(&[]), &pair_shape()).unwrap();
    assert_eq!(args.algorithm, PairAlgorithm::Sibling);
    assert_eq!((args.states, args.len, args.vocab), (16, 12, 4));
    assert_eq!((args.iterations, args.warmup), (100, 10));
    let args = pair_args(&list(&["--algorithm", "naive", "--len", "3"]), &pair_shape()).unwrap();
    assert_eq!(args.algorithm.name(), "naive");
    assert_eq!(args.len, 3);
    assert!(matches!(
        pair_args(&list(&["--len", "0"]), &pair_shape()),
        Err(ComparisonFault::NotPositive)
    ));
    assert!(pair_args(&list(&["--warmup", "0"]), &pair_shape()).is_ok());
    assert!(matches!(
        pair_args(&list(&["file"]), &pair_shape()),
        Err(ComparisonFault::Arguments(Fault::Unknown(_)))
    ));

    let args = condensed_args(&list(&[]), &condensed_shape()).unwrap();
    assert_eq!((args.lexical_labels, args.binary_labels), (4, 16));
    assert_eq!((args.iterations, args.warmup), (10, 2));
    assert_eq!(args.decomp, DecompMode::Explicit);
    assert_eq!(args.intersection, IntersectionMode::Eager);
    assert_eq!(args.intersection.family_name(), "condensed-invhom");
    assert!(matches!(
        condensed_args(&list(&["--intersection", "sibling"]), &condensed_shape()),
        Err(ComparisonFault::SiblingNeedsImplicit)
    ));
    let args = condensed_args(
        &list(&["--intersection", "sibling", "--decomp", "implicit"]),
        &condensed_shape(),
    )
    .unwrap();
    assert_eq!(args.decomp.name(), "implicit");
    assert_eq!(args.intersection.family_name(), "sibling-intersection");
    assert!(matches!(
        condensed_args(&list(&["--binary-labels", "0"]), &condensed_shape()),
        Err(ComparisonFault::NotPositive)
    ));
}

#[test]
fn generated_automata_have_the_announced_rules() {
    assert_eq!(word_symbol(3), Symbol(4));
    assert_eq!(lex_symbol(2, 1, 4), Symbol(1_009));
    assert_eq!(bin_symbol(5), Symbol(10_005));
    assert_eq!(sentence_symbols(3, 2), vec![Symbol(1), Symbol(2), Symbol(1)]);

    let left = grammar_automaton(3, &words(2), &vec![(Symbol(CONCAT), 0)]);
    assert_eq!(left.num_states(), 3);
    assert_eq!(left.num_rules(), 3 * 2 + 3 * 3);
    assert!(left.is_accepting(&StateId(0)));
    assert!(!left.is_accepting(&StateId(1)));
    assert_eq!(
        left.step(Symbol(CONCAT), &[StateId(1), StateId(2)]),
        vec![StateId((31 + 34) % 3)]
    );

    let right = span_automaton(3, 2);
    assert_eq!(right.num_states(), 6);
    assert_eq!(right.num_rules(), 3 + 4);
    assert!(right.is_accepting(&StateId(2)));
    assert_eq!(right.step(word_symbol(0), &[]), vec![StateId(0), StateId(5)]);
    assert_eq!(right.step(Symbol(CONCAT), &[StateId(0), StateId(3)]), vec![StateId(1)]);
}

#[test]
fn intersection_algorithms_find_the_same_rules() {
    let left = grammar_automaton(4, &words(2), &vec![(Symbol(CONCAT), 0)]);
    let right = span_automaton(5, 2);
    let naive = intersect_naive(&left, &right);
    let sibling = intersect_sibling(&left, &right);
    let condensed = intersect_condensed(&left, &right);
    assert!(naive.rules > 0);
    assert_eq!((naive.states, naive.rules), (sibling.states, sibling.rules));
    assert_eq!((naive.states, naive.rules), (condensed.states, condensed.rules));
}

#[test]
fn grammars_intersect_with_decompositions_through_the_homomorphism() {
    let left = grammar_automaton(3, &lexical_symbols(2, 2), &binary_symbols(2));
    assert_eq!(left.num_rules(), 3 * 4 + 2 * 9);
    let terms = string_terms(2);
    let hom = string_homomorphism(&terms, 2, 2).unwrap();
    assert_eq!(hom.num_terms(), 3);
    assert_eq!(hom.term_id(lex_symbol(1, 0, 2)), hom.term_id(lex_symbol(1, 1, 2)));
    assert_ne!(hom.term_id(lex_symbol(0, 0, 2)), hom.term_id(lex_symbol(1, 0, 2)));
    let right = InvHom::new(span_automaton(4, 2), &hom);
    let found = intersect_condensed(&left, &right);
    assert!(found.states > 0);
    assert!(found.rules > 0);
}

#[test]
fn trees_are_spelled_with_quotes_and_spaces() {
    let tree = spell("f( a , 'g h'(b) )");
    assert!(tree.fault.is_none());
    let labels: Vec<&str> = tree.nodes.iter().map(|node| node.label.as_str()).collect();
    assert_eq!(labels, vec!["a", "b", "g h", "f"]);
    assert_eq!(tree.nodes[3].children, vec![0, 2]);
    assert!(matches!(spell("").fault, Some(TreeFault::ExpectedLabel(0))));
    assert!(matches!(spell("f(a").fault, Some(TreeFault::Expected(')', 3))));
    assert!(matches!(spell("f x").fault, Some(TreeFault::Trailing(2))));
    assert!(matches!(spell("'f").fault, Some(TreeFault::Unterminated(_))));
}

#[test]
fn trees_run_through_automata() {
    let mut names = Signature::new();
    let a = names.intern("a".to_string(), 0).unwrap();
    let f = names.intern("f".to_string(), 2).unwrap();
    let mut b = ExplicitBuilder::new();
    let leaf = b.new_state();
    let root = b.new_state();
    b.add_rule(a, vec![], leaf);
    b.add_rule(f, vec![leaf, leaf], root);
    b.add_rule(f, vec![root, leaf], root);
    b.add_accepting(root);
    let automaton = b.build();
    assert!(is_deterministic(&automaton));
    let lines = list(&["# comment", "f(a, a)", "", "a", "f(f(a,a),a)", "f(a,f(a,a))"]);
    let trees = parse_tree_lines(&lines, &mut names).unwrap();
    assert_eq!(trees.len(), 4);
    let det = run_all_det(&automaton, &trees);
    assert_eq!((det.accepted, det.root_states), (2, 3));
    let nondet = run_all_nondet(&automaton, &trees).unwrap();
    assert_eq!((nondet.accepted, nondet.root_states), (2, 3));
    assert!(matches!(parse_tree("f(a)", &mut names), Err(LineFault::Label(_))));
    assert!(matches!(
        parse_tree_lines(&list(&["a", "f("]), &mut names),
        Err((2, LineFault::Text(_)))
    ));
}

#[test]
fn two_rules_for_one_node_are_not_deterministic() {
    let mut b = ExplicitBuilder::new();
    let p = b.new_state();
    let q = b.new_state();
    b.add_rule(Symbol(0), vec![], p);
    b.add_rule(Symbol(0), vec![], q);
    assert!(!is_deterministic(&b.build()));
}

#[test]
fn tree_program_settings() {
    let texts = |args: &[&str]| args.iter().map(|s| s.to_string()).collect::<Vec<_>>();
    let shape = tree_shape();
    let found = tree_args(&texts(&["--auto", "a.auto", "--trees", "t.txt"]), &shape).unwrap();
    assert_eq!((found.auto.as_str(), found.trees.as_str()), ("a.auto", "t.txt"));
    assert_eq!((found.iterations, found.warmup), (100, 10));
    let found = tree_args(
        &texts(&["--trees", "t", "--auto", "a", "--iterations", "7", "--warmup", "0"]),
        &shape,
    )
    .unwrap();
    assert_eq!((found.iterations, found.warmup), (7, 0));
    assert!(matches!(tree_args(&texts(&["--auto", "a"]), &shape), Err(TreeArgsFault::MissingPath)));
    assert!(matches!(
        tree_args(&texts(&["-h"]), &shape),
        Err(TreeArgsFault::Arguments(Fault::Help))
    ));
    assert!(matches!(
        tree_args(&texts(&["--warmup", "x"]), &shape),
        Err(TreeArgsFault::Arguments(Fault::NotANumber(3, _)))
    ));
    assert!(matches!(
        tree_args(&texts(&["--fast"]), &shape),
        Err(TreeArgsFault::Arguments(Fault::Unknown(_)))
    ));
}

#[test]
fn coverage_examples_wanted() {
    let texts = |args: &[&str]| args.iter().map(|s| s.to_string()).collect::<Vec<_>>();
    assert_eq!(examples_wanted(&texts(&[])), 10);
    assert_eq!(examples_wanted(&texts(&["x", "--examples", "3"])), 3);
    assert_eq!(examples_wanted(&texts(&["--examples", "many"])), 10);
    assert_eq!(examples_wanted(&texts(&["--examples", "3", "--examples"])), 3);
    assert_eq!(examples_wanted(&texts(&["--examples", "--examples", "3"])), 10);
}

#[test]
fn sentences_are_tallied() {
    let scored = |gold: usize, predicted: usize, labeled: usize, unlabeled: usize| {
        Some(Ok(ParsevalCounts {
            gold,
            predicted,
            matched_labeled: labeled,
            matched_unlabeled: unlabeled,
        }))
    };
    let skip = ParsevalSkip::LengthMismatch { predicted: 3, gold: 12 };
    let t = tally(&vec![
        SentenceOutcome { parsed: true, score: scored(5, 4, 2, 3) },
        SentenceOutcome { parsed: false, score: scored(7, 0, 0, 0) },
        SentenceOutcome { parsed: true, score: Some(Err(skip)) },
        SentenceOutcome { parsed: true, score: None },
    ]);
    assert_eq!((t.parsed, t.scored, t.skipped), (3, 2, 1));
    assert_eq!((t.gold, t.predicted), (12, 4));
    assert_eq!((t.matched_labeled, t.matched_unlabeled), (2, 3));
    assert_eq!(skip.text(), "length-mismatch predicted=3 gold=12");
    assert_eq!(
        ParsevalSkip::Cutoff { length: 41, cutoff: 40 }.text(),
        "cutoff normalized-length=41 limit=40"
    );
}
