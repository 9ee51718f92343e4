//! Compiling a Tulipac grammar to rules with images.
use crate::alto_ast;
use crate::alto_ast::{
    leaf, AstAutoRule, AstHomRule, AstHomTerm, AstInterpretationDecl, AstIrtg, AstRule, AstState,
    HomAst, IrtgAst, RuleAst,
};
use crate::arena;
use crate::arena::{tag_children, tag_label};
use crate::codecs::tulipac::feature_images;
use crate::codecs::tulipac::feature_images::feature_term;
use crate::codecs::tulipac::images;
use crate::codecs::tulipac::images::{string_term, tree_term, ImageError, ImageFault};
use crate::codecs::tulipac::lexicon;
use crate::codecs::tulipac::lexicon::{
    collect_lexicon, find_tree, safe_suffix, EntryModel, LexiconEntry, LexiconError, LexiconFault,
};
use crate::codecs::tulipac::parser;
use crate::codecs::tulipac::parser::parse_grammar;
use crate::codecs::tulipac::syntax;
use crate::codecs::tulipac::syntax::{
    DeclModel, Declarations, ElementaryTree, FaultAt, NodeType, ParseError, TagNode, TagTree,
};
use crate::codecs::tulipac::tokens;
use crate::codecs::tulipac::tokens::{lex, LexError, LexFault};
use crate::label_tree;
use crate::symbol_set;
use crate::text;
use crate::text::{is_text, is_text_less, joined, same_text};
use packed_term_arena::tree::{Tree, TreeArena};
use vstd::prelude::*;
use vstd::string::StringExecFns;

verus! {

/// Why declarations do not form a grammar.
#[derive(Debug)]
pub enum CompileError {
    Lexicon(LexiconError),
    Image(ImageError),
    /// No initial tree is rooted in `S`.
    NoInitialTree,
}

/// What keeps declarations from forming a grammar.
pub enum CompileFault {
    Lexicon(LexiconFault),
    Image(ImageFault),
    NoInitialTree,
}

impl View for CompileError {
    type V = CompileFault;

    open spec fn view(&self) -> CompileFault {
        match self {
            CompileError::Lexicon(e) => CompileFault::Lexicon(e@),
            CompileError::Image(e) => CompileFault::Image(e@),
            CompileError::NoInitialTree => CompileFault::NoInitialTree,
        }
    }
}

/// Whether some node of a tree satisfies a condition.
pub open spec fn some_node(t: TagTree, holds: spec_fn(syntax::NodeModel) -> bool) -> bool
    decreases t,
{
    holds(t.label) || exists|i: int|
        0 <= i < t.children.len() && some_node(#[trigger] t.children[i], holds)
}

/// Whether a tree is an auxiliary tree: it has a foot.
pub open spec fn is_auxiliary(t: TagTree) -> bool {
    some_node(t, |n: syntax::NodeModel| n.node_type == NodeType::Foot)
}

/// Whether a node of a tree has a feature annotation.
pub open spec fn annotated(t: TagTree) -> bool {
    some_node(t, |n: syntax::NodeModel| n.top is Some || n.bottom is Some)
}

/// Whether the tree declared at place `i` is the one its name stands for.
pub open spec fn effective(d: DeclModel, i: int) -> bool {
    0 <= i < d.trees.len() && lexicon::last_named(d.trees, d.trees[i].0) == Some(i)
}

/// Whether a grammar has feature annotations.
pub open spec fn has_features(d: DeclModel) -> bool {
    exists|i: int| #[trigger] effective(d, i) && annotated(d.trees[i].1)
}

/// The elementary tree that a name stands for.
pub open spec fn tree_of(d: DeclModel, name: Seq<char>) -> TagTree {
    d.trees[lexicon::last_named(d.trees, name)->0].1
}

/// States as children of a rule.
pub open spec fn plain_states(names: Seq<Seq<char>>) -> Seq<(Seq<char>, bool)> {
    Seq::new(names.len(), |i: int| (names[i], false))
}

/// The images of a rule: one more with features.
pub open spec fn rule_homs(tree: HomAst, string: HomAst, ft: Option<HomAst>) -> Seq<
    (Seq<char>, HomAst),
> {
    let two = seq![("tree"@, tree), ("string"@, string)];
    match ft {
        Some(t) => two.push(("ft"@, t)),
        None => two,
    }
}

/// A rule; the start state is final.
pub open spec fn rule_for(
    parent: Seq<char>,
    symbol: Seq<char>,
    children: Seq<Seq<char>>,
    homs: Seq<(Seq<char>, HomAst)>,
) -> RuleAst {
    RuleAst {
        parent,
        is_final: parent == "S_S"@,
        symbol,
        children: plain_states(children),
        weight: None,
        homs,
    }
}

/// The rule for a lexicon entry.
pub open spec fn entry_rule(e: EntryModel, t: TagTree, with_features: bool) -> Result<
    RuleAst,
    ImageFault,
> {
    let (tree_hom, states) = images::tree_image(t, e.word, Seq::empty());
    let parent = if is_auxiliary(t) {
        images::adjunction_state(t.label.label)
    } else {
        images::substitution_state(t.label.label)
    };
    let symbol = e.tree + "-"@ + e.word + lexicon::safe_text(lexicon::features_word(e.features));
    match images::string_image(tree_hom, states) {
        Ok((string_hom, sort)) => if with_features {
            match feature_images::feature_term_of(t, tree_hom, states, e.features) {
                Ok(ft) => Ok(
                    rule_for(
                        parent,
                        symbol,
                        states,
                        rule_homs(tree_hom, string_hom, Some(ft)),
                    ),
                ),
                Err(f) => Err(f),
            }
        } else {
            Ok(rule_for(parent, symbol, states, rule_homs(tree_hom, string_hom, None)))
        },
        Err(f) => Err(f),
    }
}

/// The rules for lexicon entries; the first failure counts.
pub open spec fn entry_rules(d: DeclModel, list: Seq<EntryModel>, with_features: bool) -> Result<
    Seq<RuleAst>,
    ImageFault,
>
    decreases list.len(),
{
    if list.len() == 0 {
        Ok(Seq::empty())
    } else {
        match entry_rules(d, list.drop_last(), with_features) {
            Ok(front) => match entry_rule(
                list.last(),
                tree_of(d, list.last().tree),
                with_features,
            ) {
                Ok(rule) => Ok(front.push(rule)),
                Err(f) => Err(f),
            },
            Err(f) => Err(f),
        }
    }
}

/// The adjunction states that the trees of entries have.
pub open spec fn adjunction_states(d: DeclModel, list: Seq<EntryModel>) -> Seq<Seq<char>>
    decreases list.len(),
{
    if list.len() == 0 {
        Seq::empty()
    } else {
        adjunction_states(d, list.drop_last()) + images::adjunctions(
            tree_of(d, list.last().tree),
        )
    }
}

/// Whether texts increase.
pub open spec fn increasing(list: Seq<Seq<char>>) -> bool {
    forall|i: int, j: int|
        0 <= i < j < list.len() ==> text::text_less(#[trigger] list[i], #[trigger] list[j])
}

/// Whether a list has each of the given texts once, in increasing order.
pub open spec fn sorts(list: Seq<Seq<char>>, given: Seq<Seq<char>>) -> bool {
    increasing(list) && forall|x: Seq<char>| #[trigger] list.contains(x) <==> given.contains(x)
}

/// The given texts, once each, in increasing order.
pub open spec fn sorted_texts(given: Seq<Seq<char>>) -> Seq<Seq<char>> {
    choose|list: Seq<Seq<char>>| sorts(list, given)
}

/// The rule that adjoins nothing.
pub open spec fn nop_rule(state: Seq<char>, with_features: bool) -> RuleAst {
    rule_for(
        state,
        "*NOP*_"@ + state,
        Seq::empty(),
        rule_homs(
            HomAst::Symbol("*"@, Seq::empty()),
            HomAst::Symbol("*EE*"@, Seq::empty()),
            if with_features {
                Some(HomAst::Symbol("[foot: #1 [], root: #1]"@, Seq::empty()))
            } else {
                None
            },
        ),
    )
}

/// The rules that adjoin nothing, for each state.
pub open spec fn nop_rules(states: Seq<Seq<char>>, with_features: bool) -> Seq<RuleAst> {
    Seq::new(states.len(), |i: int| nop_rule(states[i], with_features))
}

/// The interpretations of a grammar.
pub open spec fn interpretations(with_features: bool) -> Seq<(Seq<char>, Seq<char>)> {
    let two = seq![
        ("string"@, "de.up.ling.irtg.algebra.TagStringAlgebra"@),
        ("tree"@, "de.up.ling.irtg.algebra.TagTreeAlgebra"@),
    ];
    if with_features {
        two.push(("ft"@, "de.up.ling.irtg.algebra.FeatureStructureAlgebra"@))
    } else {
        two
    }
}

/// Whether a rule is for a tree rooted in `S`.
pub open spec fn has_initial(rules: Seq<RuleAst>) -> bool {
    exists|i: int| 0 <= i < rules.len() && (#[trigger] rules[i]).parent == "S_S"@
}

/// The grammar that declarations form, or the first failure.
pub open spec fn compiled(d: DeclModel) -> Result<IrtgAst, CompileFault> {
    match lexicon::lexicon_of(d) {
        Ok(list) => {
            let with_features = has_features(d);
            match entry_rules(d, list, with_features) {
                Ok(front) => {
                    let nops = nop_rules(
                        sorted_texts(adjunction_states(d, list)),
                        with_features,
                    );
                    if has_initial(front + nops) {
                        Ok(
                            IrtgAst {
                                interpretations: interpretations(with_features),
                                rules: front + nops,
                            },
                        )
                    } else {
                        Err(CompileFault::NoInitialTree)
                    }
                },
                Err(f) => Err(CompileFault::Image(f)),
            }
        },
        Err(f) => Err(CompileFault::Lexicon(f)),
    }
}

/// Whether no head is the word `@`, which would read as a substitution.
pub open spec fn unambiguous(d: DeclModel) -> bool {
    lexicon::lexicon_of(d) matches Ok(list) ==> forall|i: int|
        0 <= i < list.len() ==> ((#[trigger] list[i]).word == "@"@ ==> !images::has_head(
            tree_of(d, list[i].tree),
        ))
}

/// An increasing list of the given texts is the sorted list.
pub proof fn lemma_sorted_texts(list: Seq<Seq<char>>, given: Seq<Seq<char>>)
    requires
        increasing(list),
        forall|x: Seq<char>| #[trigger] list.contains(x) <==> given.contains(x),
    ensures
        list == sorted_texts(given),
{
    assert(sorts(list, given));
    let other = sorted_texts(given);
    assert(sorts(other, given));
    lemma_sorts_unique(list, other);
}

/// Texts can be sorted.
pub proof fn lemma_sorted_exists(given: Seq<Seq<char>>)
    ensures
        sorts(sorted_texts(given), given),
{
    let list = lemma_some_sorted(given);
    assert(sorts(list, given));
}

proof fn lemma_some_sorted(given: Seq<Seq<char>>) -> (list: Seq<Seq<char>>)
    ensures
        sorts(list, given),
    decreases given.len(),
{
    if given.len() == 0 {
        Seq::empty()
    } else {
        let front = given.drop_last();
        let x = given.last();
        let rest = lemma_some_sorted(front);
        let list = lemma_inserted(rest, x);
        assert forall|y: Seq<char>| #[trigger] list.contains(y) <==> given.contains(y) by {
            assert(given =~= front.push(x));
            symbol_set::lemma_push_contains(front, x, y);
            assert(rest.contains(y) <==> front.contains(y));
        }
        list
    }
}

/// A text can be put at its place in an increasing list.
proof fn lemma_inserted(list: Seq<Seq<char>>, x: Seq<char>) -> (r: Seq<Seq<char>>)
    requires
        increasing(list),
    ensures
        increasing(r),
        forall|y: Seq<char>| #[trigger] r.contains(y) <==> (list.contains(y) || y == x),
    decreases list.len(),
{
    if list.len() == 0 {
        let r = seq![x];
        assert(r[0] == x);
        r
    } else if list.last() == x {
        assert(list.contains(list[list.len() - 1]));
        list
    } else if text::text_less(list.last(), x) {
        let r = list.push(x);
        assert forall|i: int, j: int| 0 <= i < j < r.len() implies text::text_less(
            #[trigger] r[i],
            #[trigger] r[j],
        ) by {
            if j == list.len() && i < list.len() - 1 {
                assert(text::text_less(list[i], list[list.len() - 1]));
                text::lemma_text_less_transitive(list[i], list.last(), x);
            }
        }
        assert forall|y: Seq<char>| #[trigger] r.contains(y) <==> (list.contains(y) || y == x) by {
            symbol_set::lemma_push_contains(list, x, y);
        }
        r
    } else {
        let last = list.last();
        let front = list.drop_last();
        text::lemma_text_less_total(last, x);
        lemma_last_apart(list, x);
        let rec = lemma_inserted(front, x);
        let r = rec.push(last);
        assert forall|i: int, j: int| 0 <= i < j < r.len() implies text::text_less(
            #[trigger] r[i],
            #[trigger] r[j],
        ) by {
            if j == rec.len() {
                assert(rec.contains(rec[i]));
                if rec[i] != x {
                    let k = choose|k: int| 0 <= k < front.len() && front[k] == rec[i];
                    assert(text::text_less(list[k], list[list.len() - 1]));
                }
            }
        }
        assert forall|y: Seq<char>| #[trigger] r.contains(y) <==> (list.contains(y) || y == x) by {
            symbol_set::lemma_push_contains(rec, last, y);
            symbol_set::lemma_push_contains(front, last, y);
            assert(list =~= front.push(last));
        }
        r
    }
}

/// Two increasing lists of the same texts are the same.
proof fn lemma_sorts_unique(a: Seq<Seq<char>>, b: Seq<Seq<char>>)
    requires
        increasing(a),
        increasing(b),
        forall|x: Seq<char>| #[trigger] a.contains(x) <==> b.contains(x),
    ensures
        a == b,
    decreases a.len() + b.len(),
{
    if a.len() == 0 {
        if b.len() > 0 {
            assert(b.contains(b[0]));
            assert(a.contains(b[0]));
        }
        assert(a =~= b);
    } else if b.len() == 0 {
        assert(a.contains(a[0]));
    } else {
        let x = a.last();
        let y = b.last();
        assert(a.contains(x) && b.contains(y));
        assert(b.contains(x) && a.contains(y));
        let i = choose|i: int| 0 <= i < b.len() && b[i] == x;
        let j = choose|j: int| 0 <= j < a.len() && a[j] == y;
        text::lemma_text_less_total(x, y);
        if i < b.len() - 1 {
            assert(text::text_less(b[i], b[b.len() - 1]));
        }
        if j < a.len() - 1 {
            assert(text::text_less(a[j], a[a.len() - 1]));
        }
        assert(x == y);
        let c = a.drop_last();
        let d = b.drop_last();
        assert forall|z: Seq<char>| #[trigger] c.contains(z) <==> d.contains(z) by {
            lemma_last_apart(a, z);
            lemma_last_apart(b, z);
            assert(a.contains(z) <==> b.contains(z));
        }
        lemma_sorts_unique(c, d);
        assert(a =~= c.push(x));
        assert(b =~= d.push(y));
    }
}

proof fn lemma_last_apart(a: Seq<Seq<char>>, z: Seq<char>)
    requires
        increasing(a),
        a.len() > 0,
    ensures
        increasing(a.drop_last()),
        a.drop_last().contains(z) <==> (a.contains(z) && z != a.last()),
{
    let c = a.drop_last();
    assert(increasing(c)) by {
        assert forall|i: int, j: int| 0 <= i < j < c.len() implies text::text_less(
            #[trigger] c[i],
            #[trigger] c[j],
        ) by {
            assert(text::text_less(a[i], a[j]));
        }
    }
    if c.contains(z) {
        let i = choose|i: int| 0 <= i < c.len() && c[i] == z;
        assert(a[i] == z);
        assert(text::text_less(a[i], a[a.len() - 1]));
        text::lemma_text_less_total(z, z);
    }
    if a.contains(z) && z != a.last() {
        let i = choose|i: int| 0 <= i < a.len() && a[i] == z;
        assert(c[i] == z);
    }
}

/// Adds a text at its place, unless it is there already.
pub fn insert_sorted(list: &mut Vec<String>, s: String)
    requires
        increasing(text::texts(old(list)@)),
    ensures
        increasing(text::texts(final(list)@)),
        forall|x: Seq<char>| #[trigger]
            text::texts(final(list)@).contains(x) <==> (text::texts(old(list)@).contains(x) || x
                == s@),
{
    let ghost before = text::texts(list@);
    let ghost key = s@;
    let mut i: usize = 0;
    while i < list.len() && is_text_less(&list[i], &s)
        invariant
            i <= list@.len(),
            before == text::texts(list@),
            forall|k: int| 0 <= k < i ==> text::text_less(#[trigger] before[k], s@),
        ensures
            i <= list@.len(),
            forall|k: int| 0 <= k < i ==> text::text_less(#[trigger] before[k], s@),
            i < list@.len() ==> !text::text_less(before[i as int], s@),
        decreases list@.len() - i,
    {
        i += 1;
    }
    if i < list.len() && same_text(&list[i], &s) {
        proof {
            assert(before[i as int] == key);
            assert(before.contains(key));
        }
        return ;
    }
    list.insert(i, s);
    proof {
        let after = text::texts(list@);
        assert(after =~= before.insert(i as int, key));
        assert forall|a: int, b: int| 0 <= a < b < after.len() implies text::text_less(
            #[trigger] after[a],
            #[trigger] after[b],
        ) by {
            let x = if a < i { a } else { a - 1 };
            let y = if b < i { b } else { b - 1 };
            if a != i && b != i {
                assert(text::text_less(before[x], before[y]));
            } else if b == i {
                assert(text::text_less(before[a], key));
            } else {
                text::lemma_text_less_total(key, before[i as int]);
                if y > i {
                    assert(text::text_less(before[i as int], before[y]));
                    text::lemma_text_less_transitive(key, before[i as int], before[y]);
                }
            }
        }
        assert forall|x: Seq<char>| #[trigger] after.contains(x) <==> (before.contains(x) || x
            == key) by {
            if after.contains(x) {
                let k = choose|k: int| 0 <= k < after.len() && after[k] == x;
                if k < i {
                    assert(before[k] == x);
                } else if k > i {
                    assert(before[k - 1] == x);
                }
            }
            if before.contains(x) {
                let k = choose|k: int| 0 <= k < before.len() && before[k] == x;
                if k < i {
                    assert(after[k] == x);
                } else {
                    assert(after[k + 1] == x);
                }
            }
            assert(after[i as int] == key);
        }
    }
}

/// Whether some node below is a foot.
fn find_foot(nodes: &TreeArena<TagNode>, node: Tree) -> (b: bool)
    requires
        arena::children_first(syntax::arena_models(*nodes)),
        arena::tree_number(node) < syntax::arena_models(*nodes).len(),
    ensures
        b == is_auxiliary(
            label_tree::tree_at(syntax::arena_models(*nodes), arena::tree_number(node)),
        ),
    decreases arena::tree_number(node),
{
    let ghost models = syntax::arena_models(*nodes);
    let ghost number = arena::tree_number(node);
    let ghost tree = label_tree::tree_at(models, number);
    let ghost holds = |n: syntax::NodeModel| n.node_type == NodeType::Foot;
    proof {
        label_tree::lemma_tree_children(models, number);
    }
    let data = tag_label(nodes, node);
    assert(data@ == tree.label);
    if let NodeType::Foot = data.node_type {
        assert(holds(tree.label));
        return true;
    }
    assert(!holds(tree.label));
    let parts = tag_children(nodes, node);
    let ghost numbers = models[number as int].1;
    let mut c: usize = 0;
    while c < parts.len()
        invariant
            c <= parts@.len(),
            models == syntax::arena_models(*nodes),
            arena::children_first(models),
            number == arena::tree_number(node),
            number < models.len(),
            numbers == models[number as int].1,
            arena::tree_numbers(parts@) == numbers,
            tree == label_tree::tree_at(models, number),
            tree.children == label_tree::trees_at(models, numbers),
            forall|d: int| 0 <= d < numbers.len() ==> #[trigger] numbers[d] < number,
            holds == (|n: syntax::NodeModel| n.node_type == NodeType::Foot),
            forall|d: int| 0 <= d < c ==> !some_node(#[trigger] tree.children[d], holds),
        decreases parts@.len() - c,
    {
        assert(arena::tree_numbers(parts@)[c as int] == arena::tree_number(parts@[c as int]));
        assert(numbers[c as int] < number);
        if find_foot(nodes, parts[c]) {
            assert(some_node(tree.children[c as int], holds));
            return true;
        }
        assert(!some_node(tree.children[c as int], holds));
        c += 1;
    }
    false
}

/// Whether some node below has a feature annotation.
fn find_annotation(nodes: &TreeArena<TagNode>, node: Tree) -> (b: bool)
    requires
        arena::children_first(syntax::arena_models(*nodes)),
        arena::tree_number(node) < syntax::arena_models(*nodes).len(),
    ensures
        b == annotated(
            label_tree::tree_at(syntax::arena_models(*nodes), arena::tree_number(node)),
        ),
    decreases arena::tree_number(node),
{
    let ghost models = syntax::arena_models(*nodes);
    let ghost number = arena::tree_number(node);
    let ghost tree = label_tree::tree_at(models, number);
    let ghost holds = |n: syntax::NodeModel| n.top is Some || n.bottom is Some;
    proof {
        label_tree::lemma_tree_children(models, number);
    }
    let data = tag_label(nodes, node);
    assert(data@ == tree.label);
    if data.top.is_some() || data.bottom.is_some() {
        assert(holds(tree.label));
        return true;
    }
    assert(!holds(tree.label));
    let parts = tag_children(nodes, node);
    let ghost numbers = models[number as int].1;
    let mut c: usize = 0;
    while c < parts.len()
        invariant
            c <= parts@.len(),
            models == syntax::arena_models(*nodes),
            arena::children_first(models),
            number == arena::tree_number(node),
            number < models.len(),
            numbers == models[number as int].1,
            arena::tree_numbers(parts@) == numbers,
            tree == label_tree::tree_at(models, number),
            tree.children == label_tree::trees_at(models, numbers),
            forall|d: int| 0 <= d < numbers.len() ==> #[trigger] numbers[d] < number,
            holds == (|n: syntax::NodeModel| n.top is Some || n.bottom is Some),
            forall|d: int| 0 <= d < c ==> !some_node(#[trigger] tree.children[d], holds),
        decreases parts@.len() - c,
    {
        assert(arena::tree_numbers(parts@)[c as int] == arena::tree_number(parts@[c as int]));
        assert(numbers[c as int] < number);
        if find_annotation(nodes, parts[c]) {
            assert(some_node(tree.children[c as int], holds));
            return true;
        }
        assert(!some_node(tree.children[c as int], holds));
        c += 1;
    }
    false
}

/// Whether a grammar has feature annotations.
fn find_features(d: &Declarations) -> (b: bool)
    requires
        d.wf(),
    ensures
        b == has_features(d@),
{
    let mut i: usize = 0;
    while i < d.trees.len()
        invariant
            i <= d.trees@.len(),
            d.wf(),
            forall|k: int| 0 <= k < i ==> !(#[trigger] effective(d@, k) && annotated(
                d@.trees[k].1,
            )),
        decreases d.trees@.len() - i,
    {
        let decl = &d.trees[i];
        assert(d@.trees[i as int] == decl@);
        assert(d.trees@[i as int].tree.wf());
        let last = find_tree(&d.trees, &decl.name);
        if let Some(k) = last {
            if k == i && find_annotation(&decl.tree.arena, decl.tree.root) {
                assert(effective(d@, i as int));
                return true;
            }
        }
        i += 1;
    }
    false
}

/// States as children of a rule.
fn child_list(names: &Vec<String>) -> (r: Vec<AstState>)
    ensures
        alto_ast::state_views(r@) == plain_states(text::texts(names@)),
{
    let mut r: Vec<AstState> = Vec::new();
    let mut i: usize = 0;
    while i < names.len()
        invariant
            i <= names@.len(),
            r@.len() == i,
            forall|j: int| 0 <= j < i ==> (#[trigger] r@[j])@ == (names@[j]@, false),
        decreases names@.len() - i,
    {
        r.push(AstState { name: names[i].clone(), is_final: false });
        i += 1;
    }
    assert(alto_ast::state_views(r@) =~= plain_states(text::texts(names@)));
    r
}

fn hom_list(tree: AstHomTerm, string: AstHomTerm, ft: Option<AstHomTerm>) -> (r: Vec<AstHomRule>)
    ensures
        alto_ast::hom_views(r@) == rule_homs(
            tree@,
            string@,
            match ft {
                Some(t) => Some(t@),
                None => None,
            },
        ),
{
    let a = AstHomRule { interpretation: "tree".to_owned(), term: tree };
    let b = AstHomRule { interpretation: "string".to_owned(), term: string };
    let ghost first = a@;
    let ghost second = b@;
    let mut r: Vec<AstHomRule> = Vec::new();
    r.push(a);
    r.push(b);
    assert(alto_ast::hom_views(r@) =~= seq![first, second]);
    if let Some(t) = ft {
        let c = AstHomRule { interpretation: "ft".to_owned(), term: t };
        let ghost third = c@;
        r.push(c);
        assert(alto_ast::hom_views(r@) =~= seq![first, second].push(third));
    }
    r
}

fn make_rule(
    parent: String,
    symbol: String,
    children: Vec<AstState>,
    homs: Vec<AstHomRule>,
    Ghost(names): Ghost<Seq<Seq<char>>>,
) -> (r: AstRule)
    requires
        alto_ast::state_views(children@) == plain_states(names),
    ensures
        r@ == rule_for(parent@, symbol@, names, alto_ast::hom_views(homs@)),
{
    let is_final = is_text(&parent, "S_S");
    AstRule {
        auto: AstAutoRule {
            parent: AstState { name: parent, is_final },
            symbol,
            children,
            weight: None,
        },
        homs,
    }
}

/// Builds the rule for a lexicon entry.
fn build_entry_rule(
    e: &LexiconEntry,
    tree: &ElementaryTree,
    with_features: bool,
    adjoined: &mut Vec<String>,
) -> (r: Result<AstRule, ImageError>)
    requires
        tree.wf(),
        e.word@ == "@"@ ==> !images::has_head(tree@),
    ensures
        match r {
            Ok(rule) => entry_rule(e@, tree@, with_features) == Ok::<RuleAst, ImageFault>(rule@),
            Err(f) => entry_rule(e@, tree@, with_features) == Err::<RuleAst, ImageFault>(f@),
        },
        text::texts(final(adjoined)@) == text::texts(old(adjoined)@) + images::adjunctions(tree@),
{
    let ghost t = tree@;
    let mut child_states: Vec<String> = Vec::new();
    let ghost none = text::texts(child_states@);
    let tree_hom = tree_term(&tree.arena, tree.root, &e.word, &mut child_states, adjoined);
    let ghost states = text::texts(child_states@);
    proof {
        assert(none =~= Seq::empty());
        images::lemma_tree_image_wrappable(t, e.word@, Seq::empty());
        label_tree::lemma_tree_children(
            syntax::arena_models(tree.arena),
            arena::tree_number(tree.root),
        );
    }
    let string_hom = string_term(&tree_hom, &child_states)?;
    let mut ft: Option<AstHomTerm> = None;
    if with_features {
        ft = Some(feature_term(tree, &tree_hom, &child_states, &e.features)?);
    }
    let data = tag_label(&tree.arena, tree.root);
    assert(data@ == t.label);
    let auxiliary = find_foot(&tree.arena, tree.root);
    let parent = if auxiliary {
        joined(data.label.as_str(), "_A")
    } else {
        joined(data.label.as_str(), "_S")
    };
    let mut symbol = joined(e.tree.as_str(), "-");
    symbol.append(e.word.as_str());
    symbol.append(safe_suffix(&e.features).as_str());
    let children = child_list(&child_states);
    let homs = hom_list(tree_hom, string_hom, ft);
    Ok(make_rule(parent, symbol, children, homs, Ghost(states)))
}

/// Builds the rule that adjoins nothing.
fn build_nop_rule(state: &String, with_features: bool) -> (r: AstRule)
    ensures
        r@ == nop_rule(state@, with_features),
{
    let symbol = joined("*NOP*_", state.as_str());
    let children: Vec<AstState> = Vec::new();
    let ghost names: Seq<Seq<char>> = Seq::empty();
    assert(alto_ast::state_views(children@) =~= plain_states(names));
    let mut ft: Option<AstHomTerm> = None;
    if with_features {
        ft = Some(leaf("[foot: #1 [], root: #1]".to_owned()));
    }
    let homs = hom_list(leaf("*".to_owned()), leaf("*EE*".to_owned()), ft);
    make_rule(state.clone(), symbol, children, homs, Ghost(names))
}

fn interpretation_list(with_features: bool) -> (r: Vec<AstInterpretationDecl>)
    ensures
        alto_ast::interpretation_views(r@) == interpretations(with_features),
{
    let a = AstInterpretationDecl {
        name: "string".to_owned(),
        algebra: "de.up.ling.irtg.algebra.TagStringAlgebra".to_owned(),
    };
    let b = AstInterpretationDecl {
        name: "tree".to_owned(),
        algebra: "de.up.ling.irtg.algebra.TagTreeAlgebra".to_owned(),
    };
    let ghost first = a@;
    let ghost second = b@;
    let mut r: Vec<AstInterpretationDecl> = Vec::new();
    r.push(a);
    r.push(b);
    assert(alto_ast::interpretation_views(r@) =~= seq![first, second]);
    if with_features {
        let c = AstInterpretationDecl {
            name: "ft".to_owned(),
            algebra: "de.up.ling.irtg.algebra.FeatureStructureAlgebra".to_owned(),
        };
        let ghost third = c@;
        r.push(c);
        assert(alto_ast::interpretation_views(r@) =~= seq![first, second].push(third));
    }
    r
}

proof fn lemma_entry_rules_error(
    d: DeclModel,
    list: Seq<EntryModel>,
    with_features: bool,
    k: int,
)
    requires
        0 <= k <= list.len(),
        entry_rules(d, list.take(k), with_features) is Err,
    ensures
        entry_rules(d, list, with_features) == entry_rules(d, list.take(k), with_features),
    decreases list.len(),
{
    if k < list.len() {
        assert(list.drop_last().take(k) =~= list.take(k));
        lemma_entry_rules_error(d, list.drop_last(), with_features, k);
    } else {
        assert(list.take(k) =~= list);
    }
}

/// Compiles declarations to a grammar.
///
/// Every lexicon entry becomes a rule with a `tree` and a `string` image and, when
/// feature annotations occur, an `ft` image. For every state at which something may
/// be adjoined there is a rule that adjoins nothing. The state of trees rooted in
/// `S` is final.
pub fn compile(d: &Declarations) -> (r: Result<AstIrtg, CompileError>)
    requires
        d.wf(),
        unambiguous(d@),
    ensures
        match r {
            Ok(g) => compiled(d@) == Ok::<IrtgAst, CompileFault>(g@),
            Err(e) => compiled(d@) == Err::<IrtgAst, CompileFault>(e@),
        },
{
    let ghost model = d@;
    let entries = match collect_lexicon(d) {
        Ok(entries) => entries,
        Err(e) => {
            return Err(CompileError::Lexicon(e));
        },
    };
    let ghost list = lexicon::entry_views(entries@);
    proof {
        lexicon::lemma_entries_known(model);
    }
    let with_features = find_features(d);
    let mut rules: Vec<AstRule> = Vec::new();
    let mut adjoined: Vec<String> = Vec::new();
    let mut i: usize = 0;
    proof {
        assert(list.take(0) =~= Seq::empty());
        assert(alto_ast::rule_views(rules@) =~= Seq::empty());
        assert(text::texts(adjoined@) =~= Seq::empty());
    }
    while i < entries.len()
        invariant
            i <= entries@.len(),
            d.wf(),
            model == d@,
            unambiguous(model),
            list == lexicon::entry_views(entries@),
            lexicon::lexicon_of(model) == Ok::<Seq<EntryModel>, LexiconFault>(list),
            forall|k: int|
                0 <= k < list.len() ==> lexicon::knows_tree(model, (#[trigger] list[k]).tree),
            with_features == has_features(model),
            entry_rules(model, list.take(i as int), with_features) == Ok::<
                Seq<RuleAst>,
                ImageFault,
            >(alto_ast::rule_views(rules@)),
            text::texts(adjoined@) == adjunction_states(model, list.take(i as int)),
        decreases entries@.len() - i,
    {
        let e = &entries[i];
        let ghost before = alto_ast::rule_views(rules@);
        proof {
            assert(list[i as int] == e@);
            assert(lexicon::knows_tree(model, list[i as int].tree));
            let now = list.take(i + 1);
            assert(now.drop_last() =~= list.take(i as int));
            assert(now.last() == e@);
        }
        let found = find_tree(&d.trees, &e.tree);
        assert(found is Some);
        if let Some(k) = found {
            let tree = &d.trees[k].tree;
            proof {
                assert(model.trees[k as int] == d.trees@[k as int]@);
                assert(tree@ == tree_of(model, e.tree@));
                assert(d.trees@[k as int].tree.wf());
            }
            match build_entry_rule(e, tree, with_features, &mut adjoined) {
                Ok(rule) => {
                    let ghost one = rule@;
                    rules.push(rule);
                    assert(alto_ast::rule_views(rules@) =~= before.push(one));
                },
                Err(f) => {
                    proof {
                        lemma_entry_rules_error(model, list, with_features, i + 1);
                    }
                    return Err(CompileError::Image(f));
                },
            }
        }
        i += 1;
    }
    assert(list.take(i as int) =~= list);
    let ghost front = alto_ast::rule_views(rules@);
    let ghost given = text::texts(adjoined@);
    let mut states: Vec<String> = Vec::new();
    let mut a: usize = 0;
    assert(given.take(0) =~= Seq::empty());
    while a < adjoined.len()
        invariant
            a <= adjoined@.len(),
            given == text::texts(adjoined@),
            increasing(text::texts(states@)),
            forall|x: Seq<char>| #[trigger]
                text::texts(states@).contains(x) <==> given.take(a as int).contains(x),
        decreases adjoined@.len() - a,
    {
        let ghost before = text::texts(states@);
        insert_sorted(&mut states, adjoined[a].clone());
        proof {
            let seen = given.take(a as int);
            assert(given.take(a + 1) =~= seen.push(given[a as int]));
            assert forall|x: Seq<char>| #[trigger] text::texts(states@).contains(x)
                <==> given.take(a + 1).contains(x) by {
                symbol_set::lemma_push_contains(seen, given[a as int], x);
                assert(before.contains(x) <==> seen.contains(x));
            }
        }
        a += 1;
    }
    proof {
        assert(given.take(a as int) =~= given);
        assert(sorts(text::texts(states@), given));
        lemma_sorts_unique(text::texts(states@), sorted_texts(given));
    }
    let ghost sorted = text::texts(states@);
    let ghost nops = nop_rules(sorted, with_features);
    let mut s: usize = 0;
    assert(front + nops.take(0) =~= front);
    while s < states.len()
        invariant
            s <= states@.len(),
            sorted == text::texts(states@),
            nops == nop_rules(sorted, with_features),
            alto_ast::rule_views(rules@) == front + nops.take(s as int),
        decreases states@.len() - s,
    {
        let ghost before = alto_ast::rule_views(rules@);
        let rule = build_nop_rule(&states[s], with_features);
        let ghost one = rule@;
        rules.push(rule);
        proof {
            assert(one == nops[s as int]);
            assert(alto_ast::rule_views(rules@) =~= before.push(one));
            assert(front + nops.take(s + 1) =~= before.push(one));
        }
        s += 1;
    }
    assert(nops.take(s as int) =~= nops);
    let ghost all = alto_ast::rule_views(rules@);
    let mut k: usize = 0;
    let mut initial = false;
    while k < rules.len()
        invariant
            k <= rules@.len(),
            all == alto_ast::rule_views(rules@),
            initial == exists|j: int| 0 <= j < k && (#[trigger] all[j]).parent == "S_S"@,
        decreases rules@.len() - k,
    {
        assert(all[k as int] == rules@[k as int]@);
        if is_text(&rules[k].auto.parent.name, "S_S") {
            initial = true;
        }
        k += 1;
    }
    if !initial {
        return Err(CompileError::NoInitialTree);
    }
    Ok(AstIrtg { interpretations: interpretation_list(with_features), rules })
}

/// Why a text is not a grammar.
#[derive(Debug)]
pub enum TulipacError {
    Lex(LexError),
    Parse(ParseError),
    /// A file is included, which a text alone cannot do.
    Includes(String),
    /// A file includes itself, directly or through others.
    Cycle(String),
    Compile(CompileError),
}

/// What keeps a text from being a grammar.
pub enum TulipacFault {
    Lex((usize, LexFault)),
    Parse(FaultAt),
    Includes(Seq<char>),
    Cycle(Seq<char>),
    Compile(CompileFault),
}

impl View for TulipacError {
    type V = TulipacFault;

    open spec fn view(&self) -> TulipacFault {
        match self {
            TulipacError::Lex(e) => TulipacFault::Lex(e@),
            TulipacError::Parse(e) => TulipacFault::Parse(e@),
            TulipacError::Includes(s) => TulipacFault::Includes(s@),
            TulipacError::Cycle(s) => TulipacFault::Cycle(s@),
            TulipacError::Compile(e) => TulipacFault::Compile(e@),
        }
    }
}

/// The declarations in a text, or the first fault.
pub open spec fn parsed(input: Seq<char>) -> Result<DeclModel, TulipacFault> {
    match tokens::tokens_of(input) {
        Ok(ts) => match parser::declarations_of(ts) {
            Ok(d) => Ok(d),
            Err(e) => Err(TulipacFault::Parse(e)),
        },
        Err(e) => Err(TulipacFault::Lex(e)),
    }
}

/// Reads the declarations in a text.
pub fn parse_declarations(input: &str) -> (r: Result<Declarations, TulipacError>)
    ensures
        match r {
            Ok(d) => parsed(input@) == Ok::<DeclModel, TulipacFault>(d@) && d.wf(),
            Err(e) => parsed(input@) == Err::<DeclModel, TulipacFault>(e@),
        },
{
    match lex(input) {
        Ok(ts) => match parse_grammar(&ts) {
            Ok(d) => Ok(d),
            Err(e) => Err(TulipacError::Parse(e)),
        },
        Err(e) => Err(TulipacError::Lex(e)),
    }
}

/// The grammar in a text that includes no file, or the first fault.
pub open spec fn decoded(input: Seq<char>) -> Result<IrtgAst, TulipacFault> {
    match parsed(input) {
        Ok(d) => if d.includes.len() > 0 {
            Err(TulipacFault::Includes(d.includes[0]))
        } else {
            match compiled(d) {
                Ok(g) => Ok(g),
                Err(e) => Err(TulipacFault::Compile(e)),
            }
        },
        Err(e) => Err(e),
    }
}

/// Reads a grammar from a text that includes no file.
pub fn decode(input: &str) -> (r: Result<AstIrtg, TulipacError>)
    requires
        parsed(input@) matches Ok(d) ==> unambiguous(d),
    ensures
        match r {
            Ok(g) => decoded(input@) == Ok::<IrtgAst, TulipacFault>(g@),
            Err(e) => decoded(input@) == Err::<IrtgAst, TulipacFault>(e@),
        },
{
    let d = parse_declarations(input)?;
    if d.includes.len() > 0 {
        assert(d@.includes[0] == d.includes@[0]@);
        return Err(TulipacError::Includes(d.includes[0].clone()));
    }
    match compile(&d) {
        Ok(g) => Ok(g),
        Err(e) => Err(TulipacError::Compile(e)),
    }
}

} // verus!
