//! Tests of tree-adjoining grammars in the Tulipac format.
use rusty_alto::codecs::tulipac::compile::{decode, parse_declarations, TulipacError};
use rusty_alto::codecs::tulipac::includes::{IncludeWalk, WalkStep};
use rusty_alto::codecs::tulipac::read::{build_declarations, is_unambiguous, TulipacReadError};
use rusty_alto::codecs::tulipac::tokens::lex;
use rusty_alto::codecs::tulipac::{compile, TulipacInputCodec};
use rusty_alto::finite_language::{Derivation, FiniteLanguagePlan};
use rusty_alto::ids::{StateId, Symbol};
use rusty_alto::irtg::assemble::{build_irtg, Irtg};
use rusty_alto::irtg::grammar::{Interpretation, InterpretationKind};
use rusty_alto::irtg::parse::{ParseChart, ParseInput, StateNames};
use rusty_alto::irtg::size::can_number;
use rusty_alto::traits::BottomUpTa;

const CHASING: &str = r#"
        tree trans:
          S {
            NP![case=nom][]
            VP {
              V+
              NP![case=acc][]
            }
          }

        tree np_n:
          NP[][case=?case] {
            Det! [case=?case][]
            N+ [case=?case][]
          }

        tree det:
          Det+

        word 'jagt': trans
        word 'hund': np_n[case=nom]
        word 'hasen': np_n[case=acc]
        word 'der': det[case=nom]
        word 'den': det[case=acc]
"#;

const ADJUNCTION: &str = r#"
        tree clause:
          S @NA {
            NP!
            VP {
              V+ @NA
            }
          }

        tree noun:
          NP @NA {
            N+ @NA
          }

        tree adverb:
          VP @NA {
            Adv+ @NA
            VP*
          }

        word 'john': noun
        word 'sleeps': clause
        word 'quickly': adverb
"#;

const RECURSIVE_ADJUNCTION: &str = r#"
        tree seed:
          S @NA {
            VP {
              Center+ @NA
            }
          }

        tree copy:
          VP {
            Left+ @NA
            VP*
            Right+ @NA
          }

        word 'c': seed
        word 'a': copy
"#;

/// A span, or two with a gap between them. A span has an empty second part at `LONE`.
type Yield = ((StateId, StateId), (StateId, StateId));

const LONE: (StateId, StateId) = (StateId(1_000), StateId(1_000));

/// The decompositions of a sentence into strings and pairs of strings.
struct TagDecomposition {
    operations: Vec<Option<Symbol>>,
    words: Vec<Option<Symbol>>,
}

impl TagDecomposition {
    fn of(interpretation: &Interpretation, sentence: &str) -> Self {
        let names = interpretation.algebra_signature();
        TagDecomposition {
            operations: ["*EE*", "*CONC11*", "*CONC12*", "*CONC21*", "*WRAP21*", "*WRAP22*"]
                .iter()
                .map(|name| names.get(&name.to_string()))
                .collect(),
            words: sentence
                .split_whitespace()
                .map(|word| names.get(&word.to_string()))
                .collect(),
        }
    }
}

impl BottomUpTa for TagDecomposition {
    type State = Yield;

    fn steps_to(
        &self,
        _f: Symbol,
        _children: vstd::prelude::Seq<Self::State>,
        _q: Self::State,
    ) -> bool {
        unreachable!()
    }

    fn accepts(&self, _q: Self::State) -> bool {
        unreachable!()
    }

    fn step(&self, f: Symbol, children: &[Yield]) -> Vec<Yield> {
        let mut found = Vec::new();
        let n = self.words.len() as u32;
        let is = |k: usize| self.operations[k] == Some(f);
        if children.is_empty() {
            if is(0) {
                for i in 0..=n {
                    for k in i..=n {
                        found.push(((StateId(i), StateId(i)), (StateId(k), StateId(k))));
                    }
                }
            }
            for (i, word) in self.words.iter().enumerate() {
                if *word == Some(f) {
                    found.push(((StateId(i as u32), StateId(i as u32 + 1)), LONE));
                }
            }
        } else if children.len() == 2 {
            let (a, b) = (children[0], children[1]);
            let lone = |q: Yield| q.1 == LONE;
            if is(1) && lone(a) && lone(b) && a.0 .1 == b.0 .0 {
                found.push(((a.0 .0, b.0 .1), LONE));
            }
            if is(2) && lone(a) && !lone(b) && a.0 .1 == b.0 .0 {
                found.push(((a.0 .0, b.0 .1), b.1));
            }
            if is(3) && !lone(a) && lone(b) && a.1 .1 == b.0 .0 {
                found.push((a.0, (a.1 .0, b.0 .1)));
            }
            if is(4) && !lone(a) && lone(b) && a.0 .1 == b.0 .0 && b.0 .1 == a.1 .0 {
                found.push(((a.0 .0, a.1 .1), LONE));
            }
            if is(5) && !lone(a) && !lone(b) && a.0 .1 == b.0 .0 && b.1 .1 == a.1 .0 {
                found.push(((a.0 .0, b.0 .1), (b.1 .0, a.1 .1)));
            }
        }
        found
    }

    fn is_accepting(&self, q: &Yield) -> bool {
        *q == ((StateId(0), StateId(self.words.len() as u32)), LONE)
    }
}

impl StateNames for TagDecomposition {
    fn state_text(&self, _q: Self::State) -> vstd::prelude::Seq<char> {
        unreachable!()
    }

    fn name_state(&self, q: &Self::State) -> String {
        format!("{q:?}")
    }

    fn span(&self, _q: Self::State) -> (usize, usize) {
        unreachable!()
    }

    fn span_of(&self, q: &Self::State) -> (usize, usize) {
        (q.0 .0.index(), q.0 .1.index())
    }
}

fn grammar_of(text: &str) -> Irtg {
    TulipacInputCodec::new().decode(text).unwrap()
}

fn chart_of(irtg: &Irtg, sentence: &str) -> ParseChart {
    let interpretation = irtg.interpretation_ref(&"string".to_string()).unwrap();
    let value = Some(TagDecomposition::of(interpretation, sentence));
    irtg.parse(vec![ParseInput { interpretation, value }]).unwrap()
}

fn quoted(name: &str) -> String {
    let plain = |c: char| c.is_alphanumeric() || c == '_' || c == '-';
    if name.chars().all(plain) {
        name.to_string()
    } else {
        format!("'{name}'")
    }
}

fn written(irtg: &Irtg, derivation: &Derivation<'_>, at: &mut usize) -> String {
    let node = &derivation.nodes()[*at];
    let mut text = quoted(irtg.grammar_signature().resolve(node.symbol()));
    let arity = node.arity();
    *at += 1;
    if arity > 0 {
        let children: Vec<String> = (0..arity).map(|_| written(irtg, derivation, at)).collect();
        text.push_str(&format!("({})", children.join(", ")));
    }
    text
}

/// The derivations of a sentence.
fn derivations(irtg: &Irtg, sentence: &str) -> Vec<String> {
    let chart = chart_of(irtg, sentence);
    let plan = FiniteLanguagePlan::new(&chart.automaton).unwrap();
    let mut iterator = plan.iter();
    let mut found = Vec::new();
    while iterator.advance() {
        found.push(written(irtg, &iterator.current().unwrap(), &mut 0));
    }
    found
}

#[test]
fn reads_and_parses_tulipac_grammar() {
    let irtg = grammar_of(CHASING);
    assert!(!chart_of(&irtg, "der hund jagt den hasen").automaton.is_empty());
    let tree = irtg.interpretation_ref(&"tree".to_string()).unwrap();
    assert_eq!(tree.kind(), InterpretationKind::TagTree);
}

#[test]
fn parses_tulipac_adjunction_with_exact_derivations() {
    let irtg = grammar_of(ADJUNCTION);
    assert_eq!(
        derivations(&irtg, "john sleeps"),
        vec!["clause-sleeps(noun-john, '*NOP*_VP_A')"]
    );
    assert_eq!(
        derivations(&irtg, "john quickly sleeps"),
        vec!["clause-sleeps(noun-john, adverb-quickly)"]
    );
}

#[test]
fn recursively_adjoins_an_auxiliary_tree_around_its_foot() {
    let irtg = grammar_of(RECURSIVE_ADJUNCTION);
    assert_eq!(
        derivations(&irtg, "a a c a a"),
        vec!["seed-c(copy-a(copy-a('*NOP*_VP_A')))"]
    );
}

#[test]
fn supports_families_lemmas_and_no_adjunction() {
    let irtg = grammar_of(
        r#"
        family verbs: { v }
        tree v: S @NA { V+ }
        lemma 'sleep': <verbs> [tense=pres] {
          word 'sleeps'
        }
        "#,
    );
    assert!(!chart_of(&irtg, "sleeps").automaton.is_empty());
}

#[test]
fn rejects_unknown_tree_and_extra_closing_brace() {
    assert!(decode("word x: missing").is_err());
    assert!(decode("tree t: S { V+ } } word x: t").is_err());
}

#[test]
fn generated_tree_interpretation_is_not_binarized() {
    let irtg = grammar_of(CHASING);
    let tree = irtg.interpretation_ref(&"tree".to_string()).unwrap();
    assert_eq!(tree.kind(), InterpretationKind::TagTree);
    assert_ne!(tree.kind(), InterpretationKind::BinarizedTagTree);
}

#[test]
fn sentences_outside_the_language_have_no_derivation() {
    let irtg = grammar_of(ADJUNCTION);
    assert!(derivations(&irtg, "sleeps john").is_empty());
    assert!(derivations(&irtg, "john quickly quickly sleeps").is_empty());
    let irtg = grammar_of(RECURSIVE_ADJUNCTION);
    assert!(derivations(&irtg, "a c a a").is_empty());
    assert_eq!(derivations(&irtg, "c"), vec!["seed-c('*NOP*_VP_A')"]);
}

#[test]
fn includes_are_walked_depth_first() {
    assert!(matches!(
        decode("#include 'trees.tag'\nword sleeps: v"),
        Err(TulipacError::Includes(name)) if name == "trees.tag"
    ));

    let mut walk = IncludeWalk::new();
    walk.open("grammar.tag".to_string(), "#include 'trees.tag'\nword sleeps: v").unwrap();
    match walk.next() {
        WalkStep::Open { base, name } => {
            assert_eq!(base, "grammar.tag");
            assert_eq!(name, "trees.tag");
        }
        WalkStep::Finished => panic!("expected a file to open"),
    }
    assert!(matches!(
        walk.open("grammar.tag".to_string(), ""),
        Err(TulipacError::Cycle(path)) if path == "grammar.tag"
    ));
    walk.open("trees.tag".to_string(), "tree v: S @NA { V+ }").unwrap();
    assert!(matches!(walk.next(), WalkStep::Finished));
    let ast = compile::compile(&walk.into_declarations()).unwrap();
    assert!(can_number(&ast));
    let irtg = build_irtg(&ast).unwrap();
    assert!(!chart_of(&irtg, "sleeps").automaton.is_empty());
}

#[test]
fn texts_that_are_no_grammar_are_refused() {
    assert!(lex("tree t: S { 'open").is_err());
    assert!(matches!(decode("word 'x"), Err(TulipacError::Lex(_))));
    assert!(matches!(decode("tree t S"), Err(TulipacError::Parse(_))));
    assert!(matches!(decode("word x: missing"), Err(TulipacError::Compile(_))));
    assert_eq!(lex("tree t: S { V+ }").unwrap().len(), lex("tree  t :S{V+}").unwrap().len());
}

#[test]
fn tulipac_codec_describes_itself() {
    let metadata = TulipacInputCodec::new().metadata();
    assert!(metadata.name.contains("tulipac"));
    assert_eq!(metadata.extension, Some("tag"));
}

#[test]
fn a_head_must_not_be_the_substitution_mark() {
    let text = "tree t: S { V+ } word '@': t";
    assert!(!is_unambiguous(&parse_declarations(text).unwrap()));
    let err = TulipacInputCodec::new().decode(text).err().unwrap();
    assert!(matches!(err, TulipacReadError::Ambiguous));
    assert_eq!(err.text(""), "invalid Tulipac grammar: a head is the word @");
    assert!(is_unambiguous(&parse_declarations("tree t: S { V+ } word x: t").unwrap()));
}

#[test]
fn errors_say_what_is_wrong() {
    let text = |input: &str| TulipacInputCodec::new().decode(input).err().unwrap().text("");
    assert_eq!(
        text("word 'x"),
        "Tulipac lexical error at byte 5: unterminated quoted identifier"
    );
    assert_eq!(text(" $"), "Tulipac lexical error at byte 1: unexpected character '$'");
    assert_eq!(
        text("? x"),
        "Tulipac lexical error at byte 0: ? must be followed by an identifier"
    );
    assert_eq!(
        text("tree t S"),
        "Tulipac syntax error at byte 7: expected Colon, found Name(\"S\")"
    );
    assert_eq!(text("tree t"), "Tulipac syntax error at byte 0: expected Colon");
    assert_eq!(
        text("word x: missing"),
        "invalid Tulipac grammar: word \"x\" references unknown elementary tree \"missing\""
    );
    assert_eq!(
        text("#include 'trees.tag'\nword sleeps: v"),
        "invalid Tulipac grammar: #include \"trees.tag\" requires TulipacInputCodec::read_path"
    );
    assert_eq!(
        text("tree t: NP { N+ } word x: t"),
        "invalid Tulipac grammar: grammar has no initial tree rooted in S"
    );
}

#[test]
fn declarations_of_several_files_make_one_grammar() {
    let mut walk = IncludeWalk::new();
    walk.open("grammar.tag".to_string(), "#include 'trees.tag'\nword sleeps: v").unwrap();
    assert!(matches!(walk.next(), WalkStep::Open { .. }));
    walk.open("trees.tag".to_string(), "tree v: S @NA { V+ }").unwrap();
    assert!(matches!(walk.next(), WalkStep::Finished));
    let irtg = build_declarations(&walk.into_declarations()).ok().unwrap();
    assert!(!chart_of(&irtg, "sleeps").automaton.is_empty());
}

#[test]
fn token_offsets_increase_and_move_with_leading_space() {
    let text = "tree t: S { 'V x'+ }";
    let tokens = lex(text).unwrap();
    for pair in tokens.windows(2) {
        assert!(pair[0].offset < pair[1].offset);
    }
    let moved = lex(&format!(" {text}")).unwrap();
    assert_eq!(moved.len(), tokens.len());
    for (a, b) in tokens.iter().zip(&moved) {
        assert_eq!(a.offset + 1, b.offset);
    }
}
