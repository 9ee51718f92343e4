//! Tests of grammars with interpretations: building them and parsing with them.
use rusty_alto::alto_ast::{
    AstAutoRule, AstHomRule, AstHomTerm, AstInterpretationDecl, AstIrtg, AstRule, AstState,
};
use packed_term_arena::tree::{Tree, TreeArena};
use rusty_alto::control::{AlwaysStop, ParseControl};
use rusty_alto::corpus::{read_corpus, RawObjects};
use rusty_alto::corpus_writer::{CorpusWriter, InterpretationDecl, InterpretedDerivation};
use rusty_alto::builder::ExplicitBuilder;
use rusty_alto::finite_language::{DerivationNode, FiniteLanguagePlan};
use rusty_alto::ids::{StateId, Symbol};
use rusty_alto::irtg::assemble::{build_irtg, Irtg, IrtgError};
use rusty_alto::irtg::grammar::{Interpretation, InterpretationKind};
use rusty_alto::irtg::parse::{AstarHeuristic, MaterializationStrategy, ParseInput, StateNames};
use rusty_alto::traits::BottomUpTa;
use rusty_alto::weight::Weight;

const STRING: &str = "de.up.ling.irtg.algebra.StringAlgebra";

fn term(label: &str, children: Vec<AstHomTerm>) -> AstHomTerm {
    AstHomTerm::Symbol(label.to_string(), children)
}

fn pair() -> AstHomTerm {
    term("*", vec![AstHomTerm::Variable(1), AstHomTerm::Variable(2)])
}

fn state(name: &str) -> AstState {
    AstState {
        name: name.trim_end_matches('!').to_string(),
        is_final: name.ends_with('!'),
    }
}

fn rule(
    parent: &str,
    symbol: &str,
    children: &[&str],
    weight: Option<f64>,
    homs: Vec<(&str, AstHomTerm)>,
) -> AstRule {
    AstRule {
        auto: AstAutoRule {
            parent: state(parent),
            symbol: symbol.to_string(),
            children: children.iter().map(|child| state(child)).collect(),
            weight: weight.map(|value| Weight { bits: value.to_bits() }),
        },
        homs: homs
            .into_iter()
            .map(|(interpretation, term)| AstHomRule {
                interpretation: interpretation.to_string(),
                term,
            })
            .collect(),
    }
}

fn grammar(interpretations: &[(&str, &str)], rules: Vec<AstRule>) -> AstIrtg {
    AstIrtg {
        interpretations: interpretations
            .iter()
            .map(|(name, algebra)| AstInterpretationDecl {
                name: name.to_string(),
                algebra: algebra.to_string(),
            })
            .collect(),
        rules,
    }
}

/// The decompositions of a sentence: its spans, joined at every place between words.
struct Decomposition {
    concat: Option<Symbol>,
    words: Vec<Option<Symbol>>,
}

impl Decomposition {
    fn of(interpretation: &Interpretation, sentence: &str) -> Self {
        let names = interpretation.algebra_signature();
        Decomposition {
            concat: names.get(&"*".to_string()),
            words: sentence
                .split_whitespace()
                .map(|word| names.get(&word.to_string()))
                .collect(),
        }
    }
}

impl BottomUpTa for Decomposition {
    type State = (StateId, StateId);

    fn steps_to(
        &self,
        _f: Symbol,
        _children: vstd::prelude::Seq<Self::State>,
        _q: Self::State,
    ) -> bool {
        unreachable!()
    }

    fn accepts(&self, _q: Self::State) -> bool {
        unreachable!()
    }

    fn step(&self, f: Symbol, children: &[Self::State]) -> Vec<Self::State> {
        let mut found = Vec::new();
        if children.is_empty() {
            for (i, word) in self.words.iter().enumerate() {
                if *word == Some(f) {
                    found.push((StateId(i as u32), StateId(i as u32 + 1)));
                }
            }
        } else if children.len() == 2 && self.concat == Some(f) && children[0].1 == children[1].0 {
            found.push((children[0].0, children[1].1));
        }
        found
    }

    fn is_accepting(&self, q: &Self::State) -> bool {
        *q == (StateId(0), StateId(self.words.len() as u32))
    }
}

impl StateNames for Decomposition {
    fn state_text(&self, _q: Self::State) -> vstd::prelude::Seq<char> {
        unreachable!()
    }

    fn name_state(&self, q: &Self::State) -> String {
        format!("{}-{}", q.0.index(), q.1.index())
    }

    fn span(&self, _q: Self::State) -> (usize, usize) {
        unreachable!()
    }

    fn span_of(&self, q: &Self::State) -> (usize, usize) {
        (q.0.index(), q.1.index())
    }
}

fn input<'i>(irtg: &'i Irtg, name: &str, sentence: &str) -> ParseInput<'i, Decomposition> {
    let interpretation = irtg.interpretation_ref(&name.to_string()).unwrap();
    ParseInput {
        interpretation,
        value: Some(Decomposition::of(interpretation, sentence)),
    }
}

fn tiny_irtg(explicit_weights: bool) -> Irtg {
    let weight = if explicit_weights { Some(1.0) } else { None };
    build_irtg(&grammar(
        &[("english", STRING)],
        vec![
            rule("S!", "r", &["NP", "VP"], Some(1.0), vec![("english", pair())]),
            rule("NP", "john_rule", &[], weight, vec![("english", term("john", vec![]))]),
            rule("VP", "watches_rule", &[], weight, vec![("english", term("watches", vec![]))]),
        ],
    ))
    .unwrap()
}

#[test]
fn parses_tiny_string_irtg_and_accepts_compatible_input() {
    let irtg = tiny_irtg(false);
    let chart = irtg.parse(vec![input(&irtg, "english", "john watches")]).unwrap();
    assert!(!chart.automaton.is_empty());

    let chart = irtg.parse(vec![input(&irtg, "english", "john sleeps")]).unwrap();
    assert!(chart.automaton.is_empty());
}

#[test]
fn parses_multi_interpretation_irtg_and_enforces_both_inputs() {
    let irtg = build_irtg(&grammar(
        &[("english", STRING), ("german", STRING)],
        vec![
            rule("S!", "r", &["A", "B"], None, vec![("english", pair()), ("german", pair())]),
            rule(
                "A",
                "a",
                &[],
                None,
                vec![("english", term("john", vec![])), ("german", term("hans", vec![]))],
            ),
            rule(
                "B",
                "b",
                &[],
                None,
                vec![("english", term("watches", vec![])), ("german", term("sieht", vec![]))],
            ),
        ],
    ))
    .unwrap();
    let chart = irtg
        .parse(vec![
            input(&irtg, "english", "john watches"),
            input(&irtg, "german", "hans sieht"),
        ])
        .unwrap();
    assert!(!chart.automaton.is_empty());

    let chart = irtg
        .parse(vec![
            input(&irtg, "english", "john watches"),
            input(&irtg, "german", "hans schaut"),
        ])
        .unwrap();
    assert!(chart.automaton.is_empty());
}

#[test]
fn rejects_unknown_hom_interpretation() {
    let err = build_irtg(&grammar(
        &[("i", STRING)],
        vec![rule("S!", "r", &[], None, vec![("missing", term("x", vec![]))])],
    ))
    .err()
    .unwrap();
    assert!(matches!(err, IrtgError::UnknownInterpretation(name) if name == "missing"));
}

#[test]
fn rejects_zero_variable() {
    let err = build_irtg(&grammar(
        &[("i", STRING)],
        vec![rule("S!", "r", &["A"], None, vec![("i", AstHomTerm::Variable(0))])],
    ))
    .err()
    .unwrap();
    assert!(matches!(err, IrtgError::ZeroVariable));
}

#[test]
fn rejects_duplicate_grammar_transitions() {
    let err = build_irtg(&grammar(
        &[("i", STRING)],
        vec![
            rule("S!", "r", &[], Some(1.0), vec![]),
            rule("S!", "r", &[], Some(2.0), vec![]),
        ],
    ))
    .err()
    .unwrap();
    assert!(matches!(err, IrtgError::Automaton(_)));
}

#[test]
fn parse_with_top_down_condensed_matches_parse() {
    let irtg = tiny_irtg(true);
    let chart_default = irtg.parse(vec![input(&irtg, "english", "john watches")]).unwrap();
    let chart_explicit = irtg
        .parse_with(
            vec![input(&irtg, "english", "john watches")],
            MaterializationStrategy::TopDownCondensed,
        )
        .unwrap();
    assert_eq!(
        chart_default.automaton.is_empty(),
        chart_explicit.automaton.is_empty()
    );
    assert!(!chart_explicit.automaton.is_empty());
}

#[test]
fn parse_with_indexed_condensed_works() {
    let irtg = tiny_irtg(true);
    let chart = irtg
        .parse_with(
            vec![input(&irtg, "english", "john watches")],
            MaterializationStrategy::IndexedCondensed,
        )
        .unwrap();
    assert!(!chart.automaton.is_empty());

    let chart = irtg
        .parse_with(
            vec![input(&irtg, "english", "john sleeps")],
            MaterializationStrategy::IndexedCondensed,
        )
        .unwrap();
    assert!(chart.automaton.is_empty());
}

#[test]
fn parse_with_astar_zero_returns_non_empty_chart_for_known_sentence() {
    let irtg = tiny_irtg(true);
    let chart = irtg
        .parse_with(
            vec![input(&irtg, "english", "john watches")],
            MaterializationStrategy::Astar(AstarHeuristic::Zero),
        )
        .unwrap();
    assert!(!chart.automaton.is_empty());
}

#[test]
fn astar_strategy_rejects_grammar_with_weight_greater_than_one() {
    let irtg = build_irtg(&grammar(
        &[("i", STRING)],
        vec![rule("S!", "r", &[], Some(5.0), vec![("i", term("hello", vec![]))])],
    ))
    .unwrap();
    let err = irtg
        .parse_with(
            vec![input(&irtg, "i", "hello")],
            MaterializationStrategy::Astar(AstarHeuristic::Zero),
        )
        .unwrap_err();
    assert!(matches!(
        err,
        IrtgError::AstarWeightPrecondition { weight, .. } if f64::from_bits(weight.bits) > 1.0
    ));
}

#[test]
fn astar_weight_precondition_error_contains_weight_and_symbol() {
    let irtg = build_irtg(&grammar(
        &[("i", STRING)],
        vec![rule("S!", "my_rule", &[], Some(3.5), vec![("i", term("hello", vec![]))])],
    ))
    .unwrap();
    let err = irtg
        .parse_with(
            vec![input(&irtg, "i", "hello")],
            MaterializationStrategy::Astar(AstarHeuristic::Zero),
        )
        .unwrap_err();
    if let IrtgError::AstarWeightPrecondition { weight, symbol } = &err {
        assert!((f64::from_bits(weight.bits) - 3.5).abs() < 1e-10);
        assert!(symbol.contains("my_rule"), "symbol = {symbol}");
    } else {
        panic!("expected AstarWeightPrecondition, got {:?}", err);
    }

    let msg = err.text("3.5");
    assert_eq!(
        msg,
        "A* requires all grammar rule weights \u{2264} 1, but found weight 3.5 for rule \"my_rule\""
    );
}

#[test]
fn legacy_alto_aux_embedding_is_normalized_outside_the_algebra() {
    let irtg = build_irtg(&grammar(
        &[("ft", "de.up.ling.irtg.algebra.FeatureStructureAlgebra")],
        vec![
            rule(
                "S!",
                "combine",
                &["A"],
                None,
                vec![("ft", term("emba_top_bottom", vec![AstHomTerm::Variable(1)]))],
            ),
            rule(
                "A",
                "value",
                &[],
                None,
                vec![("ft", term("[root: #x [], foot: #x]", vec![]))],
            ),
        ],
    ))
    .unwrap();
    let ft = irtg.interpretation_ref(&"ft".to_string()).unwrap();
    assert!(ft.algebra_signature().get(&"emba_top_bottom".to_string()).is_none());
    assert!(ft
        .algebra_signature()
        .get(&"remap_root=top,foot=bottom".to_string())
        .is_some());
}

#[test]
fn chart_states_are_named_by_state_and_span() {
    let irtg = tiny_irtg(true);
    let chart = irtg.parse(vec![input(&irtg, "english", "john watches")]).unwrap();
    assert_eq!(chart.automaton.num_rules(), 3);
    let mut names = chart.state_names.clone();
    names.sort();
    assert_eq!(names, vec!["NP[0,1]", "S[0,2]", "VP[1,2]"]);
}

#[test]
fn a_search_from_the_top_keeps_only_what_accepting_derivations_use() {
    let irtg = build_irtg(&grammar(
        &[("english", STRING)],
        vec![
            rule("S!", "r", &["NP", "VP"], None, vec![("english", pair())]),
            rule("X", "x", &["VP", "VP"], None, vec![("english", pair())]),
            rule("NP", "john_rule", &[], None, vec![("english", term("john", vec![]))]),
            rule("VP", "watches_rule", &[], None, vec![("english", term("watches", vec![]))]),
            rule("VP", "john_verb", &[], None, vec![("english", term("john", vec![]))]),
        ],
    ))
    .unwrap();
    let chart = |strategy: MaterializationStrategy| {
        irtg.parse_with(vec![input(&irtg, "english", "john watches")], strategy).unwrap()
    };
    let top = chart(MaterializationStrategy::TopDownCondensed);
    let mut names = top.state_names.clone();
    names.sort();
    assert_eq!(names, vec!["NP[0,1]", "S[0,2]", "VP[1,2]"]);
    assert_eq!(top.automaton.num_rules(), 3);

    let all = chart(MaterializationStrategy::IndexedCondensed);
    let mut names = all.state_names.clone();
    names.sort();
    assert_eq!(names, vec!["NP[0,1]", "S[0,2]", "VP[0,1]", "VP[1,2]", "X[0,2]"]);
    assert_eq!(all.automaton.num_rules(), 5);
    assert_eq!(
        top.automaton.language_cardinality(),
        all.automaton.language_cardinality()
    );
}

#[test]
fn names_of_a_corpus_are_compared_with_the_grammar() {
    let irtg = tiny_irtg(true);
    let texts = |names: &[&str]| names.iter().map(|s| s.to_string()).collect::<Vec<String>>();
    assert_eq!(irtg.first_unknown(&texts(&[])), None);
    assert_eq!(irtg.first_unknown(&texts(&["english"])), None);
    assert_eq!(
        irtg.first_unknown(&texts(&["english", "german", "french"])),
        Some(&"german".to_string())
    );
}

#[test]
fn every_strategy_keeps_the_same_derivations() {
    let irtg = tiny_irtg(true);
    let sizes: Vec<usize> = [
        MaterializationStrategy::TopDownCondensed,
        MaterializationStrategy::IndexedCondensed,
        MaterializationStrategy::Astar(AstarHeuristic::Zero),
        MaterializationStrategy::Astar(AstarHeuristic::UniversalSx),
    ]
    .iter()
    .map(|strategy| {
        irtg.parse_with(vec![input(&irtg, "english", "john watches")], *strategy)
            .unwrap()
            .automaton
            .num_rules()
    })
    .collect();
    assert_eq!(sizes, vec![3, 3, 3, 3]);
}

#[test]
fn cancelled_parse_returns_no_chart() {
    let irtg = tiny_irtg(true);
    let control = ParseControl::new();
    control.cancel();
    let err = irtg
        .parse_with_control(
            vec![input(&irtg, "english", "john watches")],
            MaterializationStrategy::TopDownCondensed,
            &control,
        )
        .unwrap_err();
    assert!(matches!(err, IrtgError::Cancelled));
}

#[test]
fn inputs_that_cannot_be_parsed_are_refused() {
    let irtg = build_irtg(&grammar(
        &[
            ("s", STRING),
            ("t", "de.up.ling.irtg.algebra.TreeWithAritiesAlgebra"),
            ("tag", "de.up.ling.irtg.algebra.TagStringAlgebra"),
        ],
        vec![rule("S!", "r", &[], None, vec![("s", term("a", vec![]))])],
    ))
    .unwrap();
    let strategy = MaterializationStrategy::TopDownCondensed;
    let err = irtg.parse_with(vec![input(&irtg, "t", "a")], strategy).unwrap_err();
    assert!(matches!(err, IrtgError::NotInputable { interpretation } if interpretation == "t"));

    let missing = ParseInput::<Decomposition> {
        interpretation: irtg.interpretation_ref(&"s".to_string()).unwrap(),
        value: None,
    };
    let err = irtg.parse_with(vec![missing], strategy).unwrap_err();
    assert!(matches!(err, IrtgError::WrongInputType { interpretation } if interpretation == "s"));

    let err = irtg
        .parse_with(
            vec![input(&irtg, "tag", "a")],
            MaterializationStrategy::Astar(AstarHeuristic::UniversalSx),
        )
        .unwrap_err();
    assert!(matches!(
        err,
        IrtgError::IncompatibleHeuristic { interpretation, message } if interpretation == "tag"
            && message == "SX and SXF heuristics require a StringAlgebra interpretation"
    ));
}

#[test]
fn unknown_algebras_and_conflicting_arities_are_refused() {
    let err = build_irtg(&grammar(&[("i", "no.such.Algebra")], vec![])).err()
    .unwrap();
    assert!(matches!(
        err,
        IrtgError::UnsupportedAlgebra { interpretation, class_name }
            if interpretation == "i" && class_name == "no.such.Algebra"
    ));
    let err = build_irtg(&grammar(
        &[("i", STRING)],
        vec![
            rule("S!", "r", &[], None, vec![("i", term("a", vec![]))]),
            rule("S!", "r", &["S"], None, vec![("i", AstHomTerm::Variable(1))]),
        ],
    ))
    .err()
    .unwrap();
    assert!(matches!(err, IrtgError::Signature(_)));
    let err = build_irtg(&grammar(
        &[("i", STRING)],
        vec![rule("S!", "r", &["S"], None, vec![("i", term("a", vec![]))])],
    ))
    .err()
    .unwrap();
    assert!(matches!(err, IrtgError::Homomorphism(_)));
}

#[test]
fn interpretation_names_are_sorted_by_kind() {
    let irtg = build_irtg(&grammar(
        &[
            ("z", STRING),
            ("a", STRING),
            ("tag", "de.up.ling.irtg.algebra.TagStringAlgebra"),
            ("t", "de.up.ling.irtg.algebra.TreeWithAritiesAlgebra"),
        ],
        vec![rule("S!", "r", &[], None, vec![("z", term("x", vec![]))])],
    ))
    .unwrap();
    assert_eq!(irtg.string_interpretation_names(), vec!["a", "z"]);
    assert_eq!(irtg.input_interpretation_names(), vec!["a", "tag", "z"]);
    let z = irtg.interpretation_ref(&"z".to_string()).unwrap();
    assert_eq!(z.kind(), InterpretationKind::String);
    assert_eq!(z.class_name(), STRING);
    assert!(irtg.interpretation_ref(&"q".to_string()).is_none());
}

fn build_tree(
    nodes: &[DerivationNode<'_>],
    next: &mut usize,
    arena: &mut TreeArena<Symbol>,
) -> Tree {
    let node = &nodes[*next];
    *next += 1;
    let children: Vec<Tree> =
        (0..node.arity()).map(|_| build_tree(nodes, next, arena)).collect();
    arena.add_node(node.symbol(), children)
}

fn leaves(arena: &TreeArena<Symbol>, tree: Tree, found: &mut Vec<Symbol>) {
    let children = arena.get_children(tree);
    if children.is_empty() {
        found.push(*arena.get_label(tree));
    }
    for &child in children {
        leaves(arena, child, found);
    }
}

#[test]
fn write_instance_emits_yield_and_tree() {
    let irtg = build_irtg(&grammar(
        &[("i", STRING)],
        vec![
            rule("S!", "r1", &["NP", "VP"], None, vec![("i", pair())]),
            rule("NP", "r2", &[], None, vec![("i", term("john", vec![]))]),
            rule("NP", "r3", &[], None, vec![("i", term("mary", vec![]))]),
            rule("VP", "r4", &["V", "NP"], None, vec![("i", pair())]),
            rule("V", "r5", &[], None, vec![("i", term("watches", vec![]))]),
        ],
    ))
    .unwrap();
    let text = "# IRTG unannotated corpus file, v1.0\n\
                # interpretation i: de.up.ling.irtg.algebra.StringAlgebra\n\n\
                john watches mary\n";
    let lines: Vec<String> = text.lines().map(|line| line.to_string()).collect();
    let corpus = read_corpus(&lines, &RawObjects, None).ok().unwrap();

    let sentence = corpus.instances[0].text("i").unwrap();
    let chart = irtg.parse(vec![input(&irtg, "i", sentence)]).unwrap();
    let plan = FiniteLanguagePlan::new(&chart.automaton).unwrap();
    let mut derivations = plan.iter();
    assert!(derivations.advance(), "parse should succeed");
    let mut arena = TreeArena::new();
    let found = derivations.current().unwrap();
    let root = build_tree(found.nodes(), &mut 0, &mut arena);

    let interpretation = irtg.interpretation_ref(&"i".to_string()).unwrap();
    let mut image = TreeArena::new();
    let image_root = interpretation.homomorphism().apply(&arena, root, &mut image).unwrap();
    let mut symbols = Vec::new();
    leaves(&image, image_root, &mut symbols);
    let words: Vec<String> = symbols
        .iter()
        .map(|f| interpretation.algebra_signature().resolve(*f).to_string())
        .collect();
    let value = words.join(" ");
    assert_eq!(value, "john watches mary");

    let decls = vec![InterpretationDecl { name: "i".to_string(), class: STRING.to_string() }];
    let mut writer = CorpusWriter::new(&vec![], "# ", &decls, true);
    let derivation = InterpretedDerivation {
        values: vec![value],
        arena: &arena,
        root,
        names: irtg.grammar_signature(),
    };
    writer.write_instance(
        &corpus.interpretation_order,
        Some(&derivation),
        &corpus.instances[0],
    );
    let mut out = String::new();
    for line in writer.take_lines() {
        out.push_str(&line);
        out.push('\n');
    }
    assert!(out.contains("# IRTG annotated corpus file, v1.0"));
    assert!(out.contains("# interpretation i: de.up.ling.irtg.algebra.StringAlgebra"));
    assert!(out.contains("\njohn watches mary\n"));
    assert!(out.contains("r1(r2, r4(r5, r3))"));
}

#[test]
fn a_request_to_stop_made_before_parsing_wins() {
    let irtg = tiny_irtg(true);
    let err = irtg
        .parse_with_control(
            vec![input(&irtg, "english", "john watches")],
            MaterializationStrategy::TopDownCondensed,
            &AlwaysStop,
        )
        .unwrap_err();
    assert!(matches!(err, IrtgError::Cancelled));
    assert_eq!(err.text(""), "parsing cancelled");
}

#[test]
fn filtering_asks_for_the_image_of_a_derivation() {
    const FT: &str = "de.up.ling.irtg.algebra.FeatureStructureAlgebra";
    let irtg = build_irtg(&grammar(
        &[("ft", FT), ("i", STRING)],
        vec![
            rule(
                "S!",
                "a",
                &[],
                None,
                vec![("ft", term("x", vec![])), ("i", term("one", vec![]))],
            ),
            rule(
                "S!",
                "b",
                &[],
                None,
                vec![("ft", term("y", vec![])), ("i", term("two", vec![]))],
            ),
        ],
    ))
    .unwrap();
    let ft = "ft".to_string();
    let names = irtg.interpretation_ref(&ft).unwrap().algebra_signature();
    let only = |label: &str| {
        let mut b = ExplicitBuilder::new();
        let q = b.new_state();
        b.add_rule(names.get(&label.to_string()).unwrap(), vec![], q);
        b.build()
    };
    let chart = irtg.grammar();
    let left = irtg.filter_non_null(chart, &ft, only("x")).unwrap();
    assert_eq!(left.num_rules(), 1);
    assert_eq!(irtg.grammar_signature().resolve(left.rule(0).symbol), "a");
    let kept = irtg.filter_non_null_with_state_origins(chart, &ft, only("y")).unwrap();
    assert_eq!(kept.automaton.num_rules(), 1);
    let err = irtg.filter_non_null(chart, &"i".to_string(), only("x")).unwrap_err();
    assert_eq!(
        err.text(""),
        format!("interpretation \"i\" with algebra {STRING} does not support non-null filtering")
    );
    let err = irtg.filter_non_null(chart, &"z".to_string(), only("x")).unwrap_err();
    assert_eq!(err.text(""), "unknown interpretation \"z\"");
}

/// A string or a piece of a tree, and what follows a gap or stands at a hole; `LONE` where
/// there is none.
type Piece = ((StateId, StateId), (StateId, StateId));

const LONE: (StateId, StateId) = (StateId(1_000), StateId(1_000));

/// The decompositions of a string into strings with a gap, or of a tree into trees with a
/// hole. Nodes are numbered so that siblings follow each other, and a piece of a tree is a
/// range of siblings.
enum Pieces {
    Strings { operations: Vec<Option<Symbol>>, words: Vec<Option<Symbol>> },
    Trees { operations: Vec<Option<Symbol>>, nodes: Vec<(Option<Symbol>, u32, u32)> },
}

impl Pieces {
    fn symbols(interpretation: &Interpretation, names: &[&str]) -> Vec<Option<Symbol>> {
        let signature = interpretation.algebra_signature();
        names.iter().map(|name| signature.get(&name.to_string())).collect()
    }

    fn string(interpretation: &Interpretation, words: &[&str]) -> Self {
        Pieces::Strings {
            operations: Self::symbols(interpretation, &["*EE*", "*CONC12*", "*WRAP21*"]),
            words: Self::symbols(interpretation, words),
        }
    }

    fn tree(interpretation: &Interpretation, nodes: &[(&str, u32, u32)]) -> Self {
        let signature = interpretation.algebra_signature();
        Pieces::Trees {
            operations: Self::symbols(interpretation, &["*", "@", "_@_"]),
            nodes: nodes
                .iter()
                .map(|(label, from, to)| (signature.get(&label.to_string()), *from, *to))
                .collect(),
        }
    }
}

impl BottomUpTa for Pieces {
    type State = Piece;

    fn steps_to(&self, _f: Symbol, _children: vstd::prelude::Seq<Piece>, _q: Piece) -> bool {
        unreachable!()
    }

    fn accepts(&self, _q: Piece) -> bool {
        unreachable!()
    }

    fn step(&self, f: Symbol, children: &[Piece]) -> Vec<Piece> {
        let range = |from: u32, to: u32| (StateId(from), StateId(to));
        let mut found = Vec::new();
        match self {
            Pieces::Strings { operations, words } => {
                let is = |k: usize| operations[k] == Some(f);
                if let [a, b] = children {
                    if is(1) && a.1 == LONE && b.1 != LONE && a.0 .1 == b.0 .0 {
                        found.push(((a.0 .0, b.0 .1), b.1));
                    }
                    if is(2) && a.1 != LONE && b.1 == LONE && a.0 .1 == b.0 .0 && b.0 .1 == a.1 .0 {
                        found.push(((a.0 .0, a.1 .1), LONE));
                    }
                } else if children.is_empty() {
                    let n = words.len() as u32;
                    for i in 0..=n {
                        for k in i..=n {
                            if is(0) {
                                found.push((range(i, i), range(k, k)));
                            }
                        }
                    }
                    for (i, word) in words.iter().enumerate() {
                        if *word == Some(f) {
                            found.push((range(i as u32, i as u32 + 1), LONE));
                        }
                    }
                }
            }
            Pieces::Trees { operations, nodes } => {
                let is = |k: usize| operations[k] == Some(f);
                if let [a, b] = children {
                    if is(1) && a.1 == b.0 {
                        found.push((a.0, b.1));
                    }
                    if is(2) && a.1 == LONE && b.1 == LONE && a.0 .1 == b.0 .0 {
                        found.push(((a.0 .0, b.0 .1), LONE));
                    }
                }
                for (i, (label, from, to)) in nodes.iter().enumerate() {
                    let own = range(i as u32, i as u32 + 1);
                    if children.is_empty() && is(0) {
                        found.push((own, own));
                    } else if children.is_empty() && *label == Some(f) && from == to {
                        found.push((own, LONE));
                    } else if children.len() == 1
                        && *label == Some(f)
                        && children[0].0 == range(*from, *to)
                    {
                        found.push((own, children[0].1));
                    }
                }
            }
        }
        found
    }

    fn is_accepting(&self, q: &Piece) -> bool {
        let end = match self {
            Pieces::Strings { words, .. } => words.len() as u32,
            Pieces::Trees { .. } => 1,
        };
        *q == ((StateId(0), StateId(end)), LONE)
    }
}

impl StateNames for Pieces {
    fn state_text(&self, _q: Piece) -> vstd::prelude::Seq<char> {
        unreachable!()
    }

    fn name_state(&self, q: &Piece) -> String {
        format!("{q:?}")
    }

    fn span(&self, _q: Piece) -> (usize, usize) {
        unreachable!()
    }

    fn span_of(&self, q: &Piece) -> (usize, usize) {
        (q.0 .0.index(), q.0 .1.index())
    }
}

#[test]
fn tag_string_and_tree_are_both_parse_inputs() {
    let leaf = |label: &str| term(label, vec![]);
    let irtg = build_irtg(&grammar(
        &[
            ("string", "de.up.ling.irtg.algebra.TagStringAlgebra"),
            ("tree", "de.up.ling.irtg.algebra.TagTreeAlgebra"),
        ],
        vec![rule(
            "S!",
            "r",
            &[],
            None,
            vec![
                (
                    "string",
                    term("*WRAP21*", vec![term("*CONC12*", vec![leaf("a"), leaf("*EE*")]), leaf("b")]),
                ),
                ("tree", term("@", vec![leaf("*"), term("f", vec![leaf("a")])])),
            ],
        )],
    ))
    .unwrap();
    let string = irtg.interpretation_ref(&"string".to_string()).unwrap();
    let tree = irtg.interpretation_ref(&"tree".to_string()).unwrap();
    let inputs = |root: &str| {
        vec![
            ParseInput { interpretation: string, value: Some(Pieces::string(string, &["a", "b"])) },
            ParseInput {
                interpretation: tree,
                value: Some(Pieces::tree(tree, &[(root, 1, 2), ("a", 2, 2)])),
            },
        ]
    };
    let chart = irtg.parse(inputs("f")).unwrap();
    assert!(!chart.automaton.is_empty());

    let chart = irtg.parse(inputs("a")).unwrap();
    assert!(chart.automaton.is_empty());
}

#[test]
fn binarized_tag_tree_is_inputable() {
    let leaf = |label: &str| term(label, vec![]);
    let rest = term("_@_", vec![leaf("b"), leaf("c")]);
    let irtg = build_irtg(&grammar(
        &[("tree", "de.up.ling.irtg.algebra.BinarizingTagTreeAlgebra")],
        vec![rule(
            "S!",
            "r",
            &[],
            None,
            vec![("tree", term("f", vec![term("_@_", vec![leaf("a"), rest])]))],
        )],
    ))
    .unwrap();
    let tree = irtg.interpretation_ref(&"tree".to_string()).unwrap();
    let nodes = [("f", 1, 4), ("a", 4, 4), ("b", 4, 4), ("c", 4, 4)];
    let chart = irtg
        .parse(vec![ParseInput { interpretation: tree, value: Some(Pieces::tree(tree, &nodes)) }])
        .unwrap();
    assert!(!chart.automaton.is_empty());
}
