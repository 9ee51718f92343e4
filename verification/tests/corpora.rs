//! Tests of reading and writing corpora.
use packed_term_arena::tree::TreeArena;
use rusty_alto::corpus::{read_corpus, Corpus, CorpusError, ObjectReader, RawObjects};
use rusty_alto::corpus_writer::{CorpusWriter, InterpretationDecl, InterpretedDerivation};
use rusty_alto::evaluation::tally::{read_gold_tree, GoldError};
use rusty_alto::signature::Signature;

const UNANNOTATED: &str = "# IRTG unannotated corpus file, v1.0\n\
                           # interpretation i: de.up.ling.irtg.algebra.StringAlgebra\n\n\
                           john watches mary\nmary watches john\n";

fn read(text: &str, limit: Option<usize>) -> Result<Corpus, CorpusError> {
    let lines: Vec<String> = text.lines().map(|line| line.to_string()).collect();
    read_corpus(&lines, &RawObjects, limit)
}

fn decls() -> Vec<InterpretationDecl> {
    vec![InterpretationDecl {
        name: "i".to_string(),
        class: "de.up.ling.irtg.algebra.StringAlgebra".to_string(),
    }]
}

fn written(writer: &mut CorpusWriter) -> String {
    let mut out = String::new();
    for line in writer.take_lines() {
        out.push_str(&line);
        out.push('\n');
    }
    out
}

#[test]
fn reads_unannotated_corpus() {
    let corpus = read(UNANNOTATED, None).unwrap();

    assert!(!corpus.annotated);
    assert_eq!(corpus.comment_prefix, "#");
    assert_eq!(corpus.interpretation_order, vec!["i".to_string()]);
    assert_eq!(corpus.instances.len(), 2);
    assert_eq!(corpus.instances[0].text("i"), Some("john watches mary"));
}

#[test]
fn limit_caps_instances() {
    let corpus = read(UNANNOTATED, Some(1)).unwrap();
    assert_eq!(corpus.instances.len(), 1);
}

#[test]
fn write_instance_uses_null_marker_for_failed_parse() {
    let text = "# IRTG unannotated corpus file, v1.0\n\
                # interpretation i: de.up.ling.irtg.algebra.StringAlgebra\n\n\
                john watches mary\n";
    let corpus = read(text, None).unwrap();
    let mut writer = CorpusWriter::new(&vec![], "# ", &decls(), true);
    writer.write_instance(&corpus.interpretation_order, None, &corpus.instances[0]);

    let out = written(&mut writer);
    assert!(out.contains("\njohn watches mary\n_null_\n"));
}

#[test]
fn an_instance_without_a_derivation_reads_back() {
    let source = read(UNANNOTATED, None).unwrap();
    let mut writer = CorpusWriter::new(&vec![], "# ", &decls(), true);
    writer.write_instance(&source.interpretation_order, None, &source.instances[0]);
    let copy = read(&written(&mut writer), None).unwrap();
    assert_eq!(copy.instances.len(), 1);
    assert_eq!(copy.instances[0].text("i"), source.instances[0].text("i"));
    let gold = copy.instances[0].gold_derivation.as_ref().unwrap();
    assert_eq!(gold.arena.get_label(gold.root), "_null_");
    assert_eq!(gold.arena.get_children(gold.root).len(), 0);
}

#[test]
fn written_corpus_reads_back() {
    let source = read(UNANNOTATED, None).unwrap();
    let mut writer = CorpusWriter::new(&vec!["made by hand".to_string()], "# ", &decls(), true);
    let mut names = Signature::new();
    let mut arena = TreeArena::new();
    let first = names.intern("r2".to_string(), 0).ok().unwrap();
    let second = names.intern("r3".to_string(), 0).ok().unwrap();
    let top = names.intern("r1".to_string(), 2).ok().unwrap();
    let left = arena.add_node(first, vec![]);
    let right = arena.add_node(second, vec![]);
    let root = arena.add_node(top, vec![left, right]);
    let tree = InterpretedDerivation {
        values: vec!["john watches mary".to_string()],
        arena: &arena,
        root,
        names: &names,
    };
    writer.write_instance(&source.interpretation_order, Some(&tree), &source.instances[0]);
    writer.write_instance(&source.interpretation_order, Some(&tree), &source.instances[1]);
    let copy = read(&written(&mut writer), None).unwrap();
    assert!(copy.annotated);
    assert_eq!(copy.interpretation_order, vec!["i".to_string()]);
    assert_eq!(copy.instances.len(), 2);
    assert_eq!(copy.instances[1].text("i"), Some("john watches mary"));
    let gold = copy.instances[0].gold_derivation.as_ref().unwrap();
    assert_eq!(gold.arena.get_label(gold.root), "r1");
    assert_eq!(gold.arena.get_children(gold.root).len(), 2);
}

#[test]
fn take_lines_empties_the_writer() {
    let mut writer = CorpusWriter::new(&vec![], "# ", &decls(), false);
    assert!(!writer.take_lines().is_empty());
    assert!(writer.take_lines().is_empty());
}

#[test]
fn malformed_corpora_are_refused() {
    assert!(matches!(read("", None), Err(CorpusError::BadHeader)));
    assert!(matches!(read("# a corpus", None), Err(CorpusError::BadHeader)));
    assert!(matches!(
        read("# IRTG unannotated corpus file, v2.0", None),
        Err(CorpusError::BadVersion)
    ));
    assert!(matches!(
        read("# IRTG plain corpus file, v1.0", None),
        Err(CorpusError::BadHeader)
    ));
    let text = "# IRTG annotated corpus file, v1.0\n# interpretation i: x\n\none line\n";
    assert!(matches!(
        read(text, None),
        Err(CorpusError::MalformedInstance { line: 4, expected: 2, found: 1 })
    ));
    let text = "# IRTG annotated corpus file, v1.0\n# interpretation i: x\n\nwords\nr1(r2\n";
    assert!(matches!(read(text, None), Err(CorpusError::TreeParse { line: 5, .. })));
}

#[test]
fn blank_lines_are_skipped_within_instances() {
    let text = "\n/// IRTG unannotated corpus file, v1.0\n\
                /// interpretation a: x\n/// interpretation b: y\n\n\n\
                one\n\ntwo\n\n\nthree\nfour\n\n";
    let corpus = read(text, None).unwrap();
    assert_eq!(corpus.comment_prefix, "///");
    assert_eq!(corpus.instances.len(), 2);
    assert_eq!(corpus.instances[0].text("b"), Some("two"));
    assert_eq!(corpus.instances[1].text("a"), Some("three"));
    assert_eq!(corpus.instances[1].text("c"), None);
}

/// Refuses texts with a given word.
struct Refusing(&'static str);

impl ObjectReader for Refusing {
    fn refusal(
        &self,
        _interpretation: vstd::prelude::Seq<char>,
        _text: vstd::prelude::Seq<char>,
    ) -> Option<vstd::prelude::Seq<char>> {
        unreachable!()
    }

    fn refuse(&self, _interpretation: &String, text: &String) -> Option<String> {
        if text.split(' ').any(|word| word == self.0) {
            Some(format!("no {}", self.0))
        } else {
            None
        }
    }
}

#[test]
fn an_object_that_is_refused_is_an_error() {
    let text = "# IRTG annotated corpus file, v1.0\n\
                # interpretation i: de.up.ling.irtg.algebra.StringAlgebra\n\n\
                john sleeps\nr1\n\nmary wakes\n)\n";
    let lines: Vec<String> = text.lines().map(|line| line.to_string()).collect();
    let err = read_corpus(&lines, &Refusing("wakes"), None).err().unwrap();
    match &err {
        CorpusError::ObjectParse { line, interpretation, message } => {
            assert_eq!((*line, interpretation.as_str(), message.as_str()), (7, "i", "no wakes"));
        }
        other => panic!("unexpected error {other:?}"),
    }
    assert_eq!(
        err.text(),
        "line 7: cannot parse object for interpretation \"i\": no wakes"
    );
    assert!(matches!(
        read_corpus(&lines, &RawObjects, None),
        Err(CorpusError::TreeParse { line: 8, .. })
    ));
    assert_eq!(read_corpus(&lines, &Refusing("wakes"), Some(1)).ok().unwrap().instances.len(), 1);
}

#[test]
fn corpus_errors_have_texts() {
    assert_eq!(
        CorpusError::BadHeader.text(),
        "invalid corpus header (expected '<prefix>IRTG [un]annotated corpus file, v1.0')"
    );
    assert_eq!(
        CorpusError::MalformedInstance { line: 3, expected: 2, found: 1 }.text(),
        "line 3: malformed instance (expected 2 lines, found 1)"
    );
}

#[test]
fn gold_trees_are_read_from_their_interpretation() {
    let text = "# IRTG unannotated corpus file, v1.0\n\
                # interpretation t: de.up.ling.irtg.algebra.TreeAlgebra\n\n\
                S(NP, VP)\nS(NP\n";
    let corpus = read(text, None).ok().unwrap();
    let gold = read_gold_tree(&corpus.instances[0], "t").ok().unwrap();
    assert_eq!(gold.arena.get_label(gold.root), "S");
    assert_eq!(gold.arena.get_children(gold.root).len(), 2);
    assert!(matches!(
        read_gold_tree(&corpus.instances[1], "t"),
        Err(GoldError::NotATree(_))
    ));
    assert!(matches!(read_gold_tree(&corpus.instances[0], "x"), Err(GoldError::Missing)));
}
