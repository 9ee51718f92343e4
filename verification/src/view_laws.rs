//! What grammars, declarations and rules say is what they hold.
use crate::alto_ast::{AstHomTerm, AstIrtg, AstRule, HomAst};
use crate::codecs::tulipac::features::{AtomModel, FeatureAtom};
use crate::codecs::tulipac::syntax::{
    Declarations, FamilyDecl, LemmaDecl, RefModel, TagNode, TreeRef, WordDecl,
};
use crate::codecs::tulipac::tokens::{Token, TokenKind, TokenModel};
use crate::corpus::{Corpus, Instance};
use crate::explicit::{Rule, StoredRule};
use vstd::prelude::*;

verus! {

/// A rule says what is written in it: states, symbol, weight and images, each in its place.
pub proof fn law_written_rules_say_what_they_hold(rule: AstRule)
    ensures
        rule@.parent == rule.auto.parent.name@,
        rule@.is_final == rule.auto.parent.is_final,
        rule@.symbol == rule.auto.symbol@,
        rule@.weight == rule.auto.weight,
        rule@.children.len() == rule.auto.children@.len(),
        forall|i: int|
            0 <= i < rule.auto.children@.len() ==> #[trigger] rule@.children[i] == (
                rule.auto.children@[i].name@,
                rule.auto.children@[i].is_final,
            ),
        rule@.homs.len() == rule.homs@.len(),
        forall|i: int|
            0 <= i < rule.homs@.len() ==> #[trigger] rule@.homs[i] == (
                rule.homs@[i].interpretation@,
                rule.homs@[i].term@,
            ),
{
}

/// A grammar says its interpretations and its rules, all of them in their order.
pub proof fn law_written_grammars_say_what_they_hold(g: AstIrtg)
    ensures
        g@.rules.len() == g.rules@.len(),
        forall|i: int| 0 <= i < g.rules@.len() ==> #[trigger] g@.rules[i] == g.rules@[i]@,
        g@.interpretations.len() == g.interpretations@.len(),
        forall|i: int|
            0 <= i < g.interpretations@.len() ==> #[trigger] g@.interpretations[i] == (
                g.interpretations@[i].name@,
                g.interpretations@[i].algebra@,
            ),
{
}

/// A term says its label and its children in their order, or the number of its variable.
pub proof fn law_written_terms_say_what_they_hold(t: AstHomTerm)
    ensures
        match t {
            AstHomTerm::Variable(v) => t@ == HomAst::Variable(v),
            AstHomTerm::Symbol(label, children) => {
                &&& t@ matches HomAst::Symbol(name, parts)
                &&& name == label@
                &&& parts.len() == children@.len()
                &&& forall|i: int|
                    0 <= i < children@.len() ==> #[trigger] parts[i] == children@[i]@
            },
        },
{
}

/// A stored rule says its symbol, children, result and weight.
pub proof fn law_stored_rules_say_what_they_hold(a: StoredRule, b: Rule<'_>)
    ensures
        a@.symbol == a.symbol && a@.result == a.result && a@.weight == a.weight,
        a@.children == a.children@,
        b@.symbol == b.symbol && b@.result == b.result && b@.weight == b.weight,
        b@.children == b.children@,
{
}

/// A node of an elementary tree says its label, what it stands for, whether adjunction is
/// forbidden, and its features.
pub proof fn law_nodes_say_what_they_hold(n: TagNode, atom: FeatureAtom)
    ensures
        n@.label == n.label@,
        n@.node_type == n.node_type,
        n@.no_adjunction == n.no_adjunction,
        n.top is None <==> n@.top is None,
        n.top matches Some(f) ==> n@.top == Some(f@),
        n.bottom is None <==> n@.bottom is None,
        n.bottom matches Some(f) ==> n@.bottom == Some(f@),
        match atom {
            FeatureAtom::Constant(s) => atom@ == AtomModel::Constant(s@),
            FeatureAtom::Variable(s) => atom@ == AtomModel::Variable(s@),
        },
{
}

/// Whether a reference says what it holds.
pub open spec fn refers(r: TreeRef, m: RefModel) -> bool {
    match r {
        TreeRef::Tree(s) => m == RefModel::Tree(s@),
        TreeRef::Family(s) => m == RefModel::Family(s@),
    }
}

/// Words, lemmas and families say what is declared of them.
pub proof fn law_entries_say_what_they_hold(w: WordDecl, l: LemmaDecl, f: FamilyDecl)
    ensures
        w@.word == w.word@ && refers(w.target, w@.target) && w@.features == w.features@,
        l@.lemma == l.lemma@ && refers(l.target, l@.target) && l@.features == l.features@,
        l@.words.len() == l.words@.len(),
        forall|i: int|
            0 <= i < l.words@.len() ==> #[trigger] l@.words[i] == (
                l.words@[i].word@,
                l.words@[i].features@,
            ),
        f@.0 == f.name@,
        f@.1.len() == f.members@.len(),
        forall|i: int| 0 <= i < f.members@.len() ==> #[trigger] f@.1[i] == f.members@[i]@,
{
}

/// Declarations say all that is declared, each kind in its order.
pub proof fn law_declarations_say_what_they_hold(d: Declarations)
    ensures
        d@.trees.len() == d.trees@.len(),
        forall|i: int|
            0 <= i < d.trees@.len() ==> #[trigger] d@.trees[i] == (
                d.trees@[i].name@,
                d.trees@[i].tree@,
            ),
        d@.families.len() == d.families@.len(),
        forall|i: int|
            0 <= i < d.families@.len() ==> #[trigger] d@.families[i] == d.families@[i]@,
        d@.words.len() == d.words@.len(),
        forall|i: int| 0 <= i < d.words@.len() ==> #[trigger] d@.words[i] == d.words@[i]@,
        d@.lemmas.len() == d.lemmas@.len(),
        forall|i: int| 0 <= i < d.lemmas@.len() ==> #[trigger] d@.lemmas[i] == d.lemmas@[i]@,
        d@.includes.len() == d.includes@.len(),
        forall|i: int|
            0 <= i < d.includes@.len() ==> #[trigger] d@.includes[i] == d.includes@[i]@,
{
}

/// A token says what kind it is, its text where it has one, and where it starts.
pub proof fn law_tokens_say_what_they_hold(t: Token)
    ensures
        t@.1 == t.offset,
        match t.kind {
            TokenKind::Tree => t@.0 is Tree,
            TokenKind::Family => t@.0 is Family,
            TokenKind::Word => t@.0 is Word,
            TokenKind::Lemma => t@.0 is Lemma,
            TokenKind::Include => t@.0 is Include,
            TokenKind::Name(s) => t@.0 == TokenModel::Name(s@),
            TokenKind::FamilyName(s) => t@.0 == TokenModel::FamilyName(s@),
            TokenKind::Annotation(s) => t@.0 == TokenModel::Annotation(s@),
            TokenKind::Variable(s) => t@.0 == TokenModel::Variable(s@),
            TokenKind::Bang => t@.0 is Bang,
            TokenKind::Star => t@.0 is Star,
            TokenKind::Plus => t@.0 is Plus,
            TokenKind::Colon => t@.0 is Colon,
            TokenKind::LBrace => t@.0 is LBrace,
            TokenKind::RBrace => t@.0 is RBrace,
            TokenKind::LBracket => t@.0 is LBracket,
            TokenKind::RBracket => t@.0 is RBracket,
            TokenKind::Comma => t@.0 is Comma,
            TokenKind::Equals => t@.0 is Equals,
        },
{
}

/// A corpus says its interpretations and its instances in their order, and an instance its
/// texts with their lines.
pub proof fn law_corpora_say_what_they_hold(c: Corpus, one: Instance)
    ensures
        c@.annotated == c.annotated,
        c@.marker == c.comment_prefix@,
        c@.names.len() == c.interpretation_order@.len(),
        forall|i: int|
            0 <= i < c.interpretation_order@.len() ==> #[trigger] c@.names[i]
                == c.interpretation_order@[i]@,
        c@.instances.len() == c.instances@.len(),
        forall|i: int|
            0 <= i < c.instances@.len() ==> #[trigger] c@.instances[i] == c.instances@[i]@,
        one@.objects.len() == one.objects@.len(),
        forall|i: int|
            0 <= i < one.objects@.len() ==> #[trigger] one@.objects[i] == (
                one.objects@[i].name@,
                one.objects@[i].text@,
                one.objects@[i].line as int,
            ),
        one@.gold is Some <==> one.gold_derivation is Some,
        one.gold_derivation matches Some(g) ==> one@.gold == Some(g@),
{
}

} // verus!
