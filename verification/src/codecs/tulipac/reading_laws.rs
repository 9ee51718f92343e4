//! Reading declarations: what is written is what is read.
use crate::codecs::tulipac::features;
use crate::codecs::tulipac::features::{AtomModel, Features};
use crate::codecs::tulipac::lexicon_laws;
use crate::codecs::tulipac::parser;
use crate::codecs::tulipac::parser::Tokens;
use crate::codecs::tulipac::syntax::{
    DeclModel, FaultAt, LemmaModel, NodeModel, NodeType, RefModel, TagTree, WordModel,
};
use crate::codecs::tulipac::tokens::TokenModel;
use crate::label_tree::LabelTree;
use crate::text;
use vstd::prelude::*;

verus! {

/// What is written between two brackets: attributes with their values.
pub type Assignments = Seq<(Seq<char>, AtomModel)>;

/// A node as it is written: the brackets behind it are those of the top and of the bottom.
pub struct WrittenNode {
    pub label: Seq<char>,
    pub node_type: NodeType,
    pub note: Option<Seq<char>>,
    pub top: Option<Assignments>,
    pub bottom: Option<Assignments>,
}

/// A tree as it is written.
pub type WrittenTree = LabelTree<WrittenNode>;

/// A word or a lemma as it is written, without word forms.
pub struct WrittenWord {
    pub word: Seq<char>,
    pub target: RefModel,
    pub features: Option<Assignments>,
}

/// A declaration as it is written.
pub enum Written {
    Tree(Seq<char>, WrittenTree),
    Family(Seq<char>, Seq<Seq<char>>),
    Word(WrittenWord),
    Lemma(WrittenWord, Seq<(Seq<char>, Option<Assignments>)>),
    Include(Seq<char>),
}

/// The tokens of a value.
pub open spec fn value_tokens(value: AtomModel) -> Seq<TokenModel> {
    match value {
        AtomModel::Constant(s) => seq![TokenModel::Name(s)],
        AtomModel::Variable(s) => seq![TokenModel::Variable(s)],
    }
}

/// The tokens of assignments, with commas between them.
pub open spec fn assignments_tokens(list: Assignments) -> Seq<TokenModel>
    decreases list.len(),
{
    if list.len() == 0 {
        Seq::empty()
    } else {
        seq![TokenModel::Name(list[0].0), TokenModel::Equals] + value_tokens(list[0].1) + if list.len()
            == 1 {
            Seq::empty()
        } else {
            seq![TokenModel::Comma] + assignments_tokens(list.skip(1))
        }
    }
}

/// The tokens of assignments between brackets.
pub open spec fn bracket_tokens(list: Assignments) -> Seq<TokenModel> {
    seq![TokenModel::LBracket] + assignments_tokens(list) + seq![TokenModel::RBracket]
}

/// The tokens of a bracket that may be left out.
pub open spec fn option_tokens(list: Option<Assignments>) -> Seq<TokenModel> {
    match list {
        Some(l) => bracket_tokens(l),
        None => Seq::empty(),
    }
}

/// The tokens that say what a node is for.
pub open spec fn type_tokens(node_type: NodeType) -> Seq<TokenModel> {
    match node_type {
        NodeType::Substitution => seq![TokenModel::Bang],
        NodeType::Foot => seq![TokenModel::Star],
        NodeType::Head => seq![TokenModel::Plus],
        NodeType::Default => Seq::empty(),
    }
}

/// The tokens of an annotation.
pub open spec fn note_tokens(note: Option<Seq<char>>) -> Seq<TokenModel> {
    match note {
        Some(s) => seq![TokenModel::Annotation(s)],
        None => Seq::empty(),
    }
}

/// The tokens of a node without its children.
pub open spec fn node_tokens(n: WrittenNode) -> Seq<TokenModel> {
    seq![TokenModel::Name(n.label)] + (type_tokens(n.node_type) + (note_tokens(n.note) + (
    option_tokens(n.top) + option_tokens(n.bottom))))
}

/// The tokens of a tree: children stand between braces.
pub open spec fn tree_tokens(t: WrittenTree) -> Seq<TokenModel>
    decreases t,
{
    if t.children.len() == 0 {
        node_tokens(t.label)
    } else {
        node_tokens(t.label) + (seq![TokenModel::LBrace] + (trees_tokens(t.children)
            + seq![TokenModel::RBrace]))
    }
}

/// The tokens of trees, one after another.
pub open spec fn trees_tokens(list: Seq<WrittenTree>) -> Seq<TokenModel>
    decreases list,
{
    if list.len() == 0 {
        Seq::empty()
    } else {
        tree_tokens(list[0]) + trees_tokens(list.subrange(1, list.len() as int))
    }
}

/// The tokens of names, with commas between them.
pub open spec fn names_tokens(list: Seq<Seq<char>>) -> Seq<TokenModel>
    decreases list.len(),
{
    if list.len() == 0 {
        Seq::empty()
    } else if list.len() == 1 {
        seq![TokenModel::Name(list[0])]
    } else {
        seq![TokenModel::Name(list[0]), TokenModel::Comma] + names_tokens(list.skip(1))
    }
}

/// The token of a reference to trees.
pub open spec fn target_token(target: RefModel) -> TokenModel {
    match target {
        RefModel::Tree(s) => TokenModel::Name(s),
        RefModel::Family(s) => TokenModel::FamilyName(s),
    }
}

/// The tokens of a word or a lemma.
pub open spec fn word_tokens(keyword: TokenModel, w: WrittenWord) -> Seq<TokenModel> {
    seq![keyword, TokenModel::Name(w.word), TokenModel::Colon, target_token(w.target)]
        + option_tokens(w.features)
}

/// The tokens of a word form.
pub open spec fn form_tokens(form: (Seq<char>, Option<Assignments>)) -> Seq<TokenModel> {
    match form.1 {
        Some(list) => seq![TokenModel::Word, TokenModel::Name(form.0), TokenModel::Colon]
            + bracket_tokens(list),
        None => seq![TokenModel::Word, TokenModel::Name(form.0)],
    }
}

/// The tokens of word forms.
pub open spec fn forms_tokens(list: Seq<(Seq<char>, Option<Assignments>)>) -> Seq<TokenModel>
    decreases list.len(),
{
    if list.len() == 0 {
        Seq::empty()
    } else {
        form_tokens(list[0]) + forms_tokens(list.skip(1))
    }
}

/// The tokens of a declaration.
pub open spec fn written_tokens(d: Written) -> Seq<TokenModel> {
    match d {
        Written::Tree(name, t) => seq![TokenModel::Tree, TokenModel::Name(name), TokenModel::Colon]
            + tree_tokens(t),
        Written::Family(name, members) => seq![
            TokenModel::Family,
            TokenModel::Name(name),
            TokenModel::Colon,
            TokenModel::LBrace,
        ] + (names_tokens(members) + seq![TokenModel::RBrace]),
        Written::Word(w) => word_tokens(TokenModel::Word, w),
        Written::Lemma(w, forms) => word_tokens(TokenModel::Lemma, w) + (seq![TokenModel::LBrace]
            + (forms_tokens(forms) + seq![TokenModel::RBrace])),
        Written::Include(file) => seq![TokenModel::Include, TokenModel::Name(file)],
    }
}

/// The tokens of declarations, one after another.
pub open spec fn all_tokens(list: Seq<Written>) -> Seq<TokenModel>
    decreases list.len(),
{
    if list.len() == 0 {
        Seq::empty()
    } else {
        written_tokens(list[0]) + all_tokens(list.skip(1))
    }
}

/// What assignments say, one after another.
pub open spec fn said(done: Features, list: Assignments) -> Features
    decreases list.len(),
{
    if list.len() == 0 {
        done
    } else {
        said(features::with_feature(done, list[0].0, list[0].1), list.skip(1))
    }
}

/// What a bracket says that may be left out.
pub open spec fn said_option(list: Option<Assignments>) -> Option<Features> {
    match list {
        Some(l) => Some(said(Seq::empty(), l)),
        None => None,
    }
}

/// What a bracket says, nothing where it is left out.
pub open spec fn said_or_nothing(list: Option<Assignments>) -> Features {
    match list {
        Some(l) => said(Seq::empty(), l),
        None => Seq::empty(),
    }
}

/// What a node says: the first bracket is the top, and `@NA` forbids adjunction.
pub open spec fn said_node(n: WrittenNode) -> NodeModel {
    NodeModel {
        label: n.label,
        node_type: n.node_type,
        no_adjunction: n.note == Some("NA"@),
        top: said_option(n.top),
        bottom: said_option(n.bottom),
    }
}

/// What a tree says.
pub open spec fn said_tree(t: WrittenTree) -> TagTree
    decreases t,
{
    LabelTree { label: said_node(t.label), children: said_trees(t.children) }
}

/// What trees say.
pub open spec fn said_trees(list: Seq<WrittenTree>) -> Seq<TagTree>
    decreases list,
{
    if list.len() == 0 {
        Seq::empty()
    } else {
        seq![said_tree(list[0])] + said_trees(list.subrange(1, list.len() as int))
    }
}

/// What a word says.
pub open spec fn said_word(w: WrittenWord) -> WordModel {
    WordModel { word: w.word, target: w.target, features: said_or_nothing(w.features) }
}

/// What word forms say.
pub open spec fn said_forms(list: Seq<(Seq<char>, Option<Assignments>)>) -> Seq<
    (Seq<char>, Features),
> {
    Seq::new(list.len(), |i: int| (list[i].0, said_or_nothing(list[i].1)))
}

/// Declarations with one more.
pub open spec fn with_written(done: DeclModel, d: Written) -> DeclModel {
    match d {
        Written::Tree(name, t) => DeclModel { trees: done.trees.push((name, said_tree(t))), ..done },
        Written::Family(name, members) => DeclModel {
            families: done.families.push((name, members)),
            ..done
        },
        Written::Word(w) => DeclModel { words: done.words.push(said_word(w)), ..done },
        Written::Lemma(w, forms) => DeclModel {
            lemmas: done.lemmas.push(
                LemmaModel {
                    lemma: w.word,
                    target: w.target,
                    features: said_or_nothing(w.features),
                    words: said_forms(forms),
                },
            ),
            ..done
        },
        Written::Include(file) => DeclModel { includes: done.includes.push(file), ..done },
    }
}

/// Declarations with more, in their order.
pub open spec fn with_all_written(done: DeclModel, list: Seq<Written>) -> DeclModel
    decreases list.len(),
{
    if list.len() == 0 {
        done
    } else {
        with_all_written(with_written(done, list[0]), list.skip(1))
    }
}

/// Whether a node can be written: a bottom needs a top.
pub open spec fn can_write_node(n: WrittenNode) -> bool {
    n.bottom is Some ==> n.top is Some
}

/// Whether a tree can be written.
pub open spec fn can_write_tree(t: WrittenTree) -> bool
    decreases t,
{
    can_write_node(t.label) && forall|i: int|
        0 <= i < t.children.len() ==> can_write_tree(#[trigger] t.children[i])
}

/// Whether a declaration can be written: families have members, and lemmas have forms.
pub open spec fn can_write(d: Written) -> bool {
    match d {
        Written::Tree(name, t) => can_write_tree(t),
        Written::Family(name, members) => members.len() > 0,
        Written::Lemma(w, forms) => forms.len() > 0,
        _ => true,
    }
}

/// Whether the tokens from `p` on are the given ones.
pub open spec fn stands(ts: Tokens, p: int, w: Seq<TokenModel>) -> bool {
    &&& p + w.len() <= ts.len()
    &&& forall|i: int| 0 <= i < w.len() ==> #[trigger] w[i] == ts[p + i].0
}

/// Tokens stand one after another.
proof fn lemma_split(ts: Tokens, p: int, a: Seq<TokenModel>, b: Seq<TokenModel>)
    requires
        stands(ts, p, a + b),
    ensures
        stands(ts, p, a),
        stands(ts, p + a.len(), b),
{
    assert forall|i: int| 0 <= i < a.len() implies #[trigger] a[i] == ts[p + i].0 by {
        assert((a + b)[i] == ts[p + i].0);
    }
    assert forall|i: int| 0 <= i < b.len() implies #[trigger] b[i] == ts[p + a.len() + i].0 by {
        assert((a + b)[a.len() + i] == ts[p + (a.len() + i)].0);
    }
}

/// The first token stands where tokens stand.
proof fn lemma_first(ts: Tokens, p: int, w: Seq<TokenModel>, i: int)
    requires
        stands(ts, p, w),
        0 <= i < w.len(),
    ensures
        p + i < ts.len(),
        ts[p + i].0 == w[i],
{
    assert(w[i] == ts[p + i].0);
}

/// Assignments are read as they are written.
proof fn lemma_assignments(ts: Tokens, p: int, done: Features, list: Assignments)
    requires
        0 <= p,
        list.len() > 0,
        stands(ts, p, assignments_tokens(list) + seq![TokenModel::RBracket]),
    ensures
        parser::assignments_from(ts, p, done) == Ok::<_, FaultAt>(
            (said(done, list), p + assignments_tokens(list).len() + 1),
        ),
    decreases list.len(),
{
    let w = assignments_tokens(list);
    let head = seq![TokenModel::Name(list[0].0), TokenModel::Equals] + value_tokens(list[0].1);
    let end = seq![TokenModel::RBracket];
    let tail: Seq<TokenModel> = if list.len() == 1 {
        Seq::empty()
    } else {
        seq![TokenModel::Comma] + assignments_tokens(list.skip(1))
    };
    assert(w == head + tail);
    assert(w + end =~= head + (tail + end));
    lemma_split(ts, p, head, tail + end);
    lemma_first(ts, p, head, 0);
    lemma_first(ts, p, head, 1);
    lemma_first(ts, p, head, 2);
    let now = features::with_feature(done, list[0].0, list[0].1);
    if list.len() == 1 {
        assert(tail + end =~= end);
        lemma_first(ts, p + 3, tail + end, 0);
        assert(list.skip(1).len() == 0);
        assert(said(now, list.skip(1)) == now);
    } else {
        let rest = assignments_tokens(list.skip(1));
        assert(tail + end =~= seq![TokenModel::Comma] + (rest + end));
        lemma_first(ts, p + 3, tail + end, 0);
        lemma_split(ts, p + 3, seq![TokenModel::Comma], rest + end);
        lemma_assignments(ts, p + 4, now, list.skip(1));
    }
}

/// A bracket is read as it is written.
proof fn lemma_bracket(ts: Tokens, p: int, list: Assignments)
    requires
        0 <= p,
        stands(ts, p, bracket_tokens(list)),
    ensures
        parser::at(ts, p, TokenModel::LBracket),
        parser::features_at(ts, p) == Ok::<_, FaultAt>(
            (said(Seq::empty(), list), p + bracket_tokens(list).len()),
        ),
{
    let inner = assignments_tokens(list);
    let end = seq![TokenModel::RBracket];
    assert(bracket_tokens(list) =~= seq![TokenModel::LBracket] + (inner + end));
    lemma_split(ts, p, seq![TokenModel::LBracket], inner + end);
    lemma_first(ts, p, seq![TokenModel::LBracket], 0);
    lemma_first(ts, p + 1, inner + end, 0);
    if list.len() > 0 {
        assert((inner + end)[0] == TokenModel::Name(list[0].0));
        lemma_assignments(ts, p + 1, Seq::empty(), list);
    } else {
        assert((inner + end)[0] == TokenModel::RBracket);
    }
}

/// A bracket that may be left out is read as it is written.
proof fn lemma_option(ts: Tokens, p: int, list: Option<Assignments>)
    requires
        0 <= p,
        stands(ts, p, option_tokens(list)),
        list is None ==> !parser::at(ts, p, TokenModel::LBracket),
    ensures
        parser::optional_features_at(ts, p) == Ok::<_, FaultAt>(
            (said_option(list), p + option_tokens(list).len()),
        ),
{
    if let Some(l) = list {
        lemma_bracket(ts, p, l);
    }
}

/// Whether no more can belong to a node at `p`.
pub open spec fn node_ends(ts: Tokens, p: int) -> bool {
    p < ts.len() ==> match ts[p].0 {
        TokenModel::Bang => false,
        TokenModel::Star => false,
        TokenModel::Plus => false,
        TokenModel::Annotation(_) => false,
        TokenModel::LBracket => false,
        _ => true,
    }
}

/// A node is read as it is written.
proof fn lemma_node(ts: Tokens, p: int, n: WrittenNode)
    requires
        0 <= p,
        can_write_node(n),
        stands(ts, p, node_tokens(n)),
        node_ends(ts, p + node_tokens(n).len()),
    ensures
        parser::node_head_at(ts, p) == Ok::<_, FaultAt>((said_node(n), p + node_tokens(n).len())),
{
    let name = seq![TokenModel::Name(n.label)];
    let t1 = type_tokens(n.node_type);
    let t2 = note_tokens(n.note);
    let t3 = option_tokens(n.top);
    let t4 = option_tokens(n.bottom);
    lemma_split(ts, p, name, t1 + (t2 + (t3 + t4)));
    lemma_first(ts, p, name, 0);
    let a = p + 1;
    lemma_split(ts, a, t1, t2 + (t3 + t4));
    let b = a + t1.len();
    lemma_split(ts, b, t2, t3 + t4);
    let c = b + t2.len();
    lemma_split(ts, c, t3, t4);
    let d = c + t3.len();
    let e = d + t4.len();
    assert(e == p + node_tokens(n).len());
    if t1.len() > 0 {
        lemma_first(ts, a, t1, 0);
    }
    if t2.len() > 0 {
        lemma_first(ts, b, t2, 0);
    }
    if let Some(l) = n.top {
        lemma_bracket(ts, c, l);
    }
    if let Some(l) = n.bottom {
        lemma_bracket(ts, d, l);
    }
    assert(parser::marker_at(ts, a) == (n.node_type, b));
    assert(parser::annotation_at(ts, b) == (n.note == Some("NA"@), c));
    lemma_option(ts, c, n.top);
    lemma_option(ts, d, n.bottom);
}

/// Whether no more can belong to a tree at `p`.
pub open spec fn tree_ends(ts: Tokens, p: int) -> bool {
    node_ends(ts, p) && !parser::at(ts, p, TokenModel::LBrace)
}

/// A tree starts with the name of its root.
proof fn lemma_tree_starts(t: WrittenTree)
    ensures
        tree_tokens(t).len() > 0,
        tree_tokens(t)[0] == TokenModel::Name(t.label.label),
{
    assert(node_tokens(t.label).len() > 0);
    assert(node_tokens(t.label)[0] == TokenModel::Name(t.label.label));
}

/// A tree is read as it is written.
proof fn lemma_tree(ts: Tokens, p: int, t: WrittenTree)
    requires
        0 <= p,
        can_write_tree(t),
        stands(ts, p, tree_tokens(t)),
        tree_ends(ts, p + tree_tokens(t).len()),
    ensures
        parser::node_at(ts, p) == Ok::<_, FaultAt>((said_tree(t), p + tree_tokens(t).len())),
    decreases t,
{
    let head = node_tokens(t.label);
    if t.children.len() == 0 {
        lemma_node(ts, p, t.label);
        assert(said_trees(t.children) =~= Seq::empty());
    } else {
        let open = seq![TokenModel::LBrace];
        let inner = trees_tokens(t.children);
        let end = seq![TokenModel::RBrace];
        lemma_split(ts, p, head, open + (inner + end));
        let q = p + head.len();
        lemma_split(ts, q, open, inner + end);
        lemma_first(ts, q, open, 0);
        lemma_node(ts, p, t.label);
        lemma_trees(ts, q + 1, t.children);
    }
}

/// Trees are read as they are written.
proof fn lemma_trees(ts: Tokens, p: int, list: Seq<WrittenTree>)
    requires
        0 <= p,
        forall|i: int| 0 <= i < list.len() ==> can_write_tree(#[trigger] list[i]),
        stands(ts, p, trees_tokens(list) + seq![TokenModel::RBrace]),
    ensures
        parser::nodes_from(ts, p) == Ok::<_, FaultAt>(
            (said_trees(list), p + trees_tokens(list).len() + 1),
        ),
    decreases list,
{
    let end = seq![TokenModel::RBrace];
    let w = trees_tokens(list);
    if list.len() == 0 {
        lemma_first(ts, p, w + end, 0);
        assert((w + end)[0] == TokenModel::RBrace);
    } else {
        let rest = list.subrange(1, list.len() as int);
        let first = tree_tokens(list[0]);
        let more = trees_tokens(rest);
        assert(w + end =~= first + (more + end));
        lemma_split(ts, p, first, more + end);
        let q = p + first.len();
        lemma_tree_starts(list[0]);
        lemma_first(ts, p, first, 0);
        lemma_first(ts, q, more + end, 0);
        if rest.len() == 0 {
            assert((more + end)[0] == TokenModel::RBrace);
        } else {
            lemma_tree_starts(rest[0]);
            assert(more[0] == tree_tokens(rest[0])[0]);
        }
        lemma_tree(ts, p, list[0]);
        assert forall|i: int| 0 <= i < rest.len() implies can_write_tree(#[trigger] rest[i]) by {
            assert(rest[i] == list[i + 1]);
        }
        lemma_trees(ts, q, rest);
    }
}

/// Names are read as they are written.
proof fn lemma_names(ts: Tokens, p: int, done: Seq<Seq<char>>, list: Seq<Seq<char>>)
    requires
        0 <= p,
        list.len() > 0,
        stands(ts, p, names_tokens(list)),
        !parser::at(ts, p + names_tokens(list).len(), TokenModel::Comma),
    ensures
        parser::names_from(ts, p, done) == Ok::<_, FaultAt>(
            (done + list, p + names_tokens(list).len()),
        ),
    decreases list.len(),
{
    let w = names_tokens(list);
    lemma_first(ts, p, w, 0);
    if list.len() == 1 {
        assert(done.push(list[0]) =~= done + list);
    } else {
        lemma_first(ts, p, w, 1);
        lemma_split(
            ts,
            p,
            seq![TokenModel::Name(list[0]), TokenModel::Comma],
            names_tokens(list.skip(1)),
        );
        lemma_names(ts, p + 2, done.push(list[0]), list.skip(1));
        assert(done.push(list[0]) + list.skip(1) =~= done + list);
    }
}

/// A word or a lemma is read as it is written.
proof fn lemma_word(ts: Tokens, p: int, keyword: TokenModel, w: WrittenWord)
    requires
        0 <= p,
        stands(ts, p, word_tokens(keyword, w)),
        w.features is None ==> !parser::at(
            ts,
            p + word_tokens(keyword, w).len(),
            TokenModel::LBracket,
        ),
    ensures
        parser::lexical_at(ts, p, keyword) == Ok::<_, FaultAt>(
            (said_word(w), p + word_tokens(keyword, w).len()),
        ),
{
    let head = seq![keyword, TokenModel::Name(w.word), TokenModel::Colon, target_token(w.target)];
    lemma_split(ts, p, head, option_tokens(w.features));
    lemma_first(ts, p, head, 0);
    lemma_first(ts, p, head, 1);
    lemma_first(ts, p, head, 2);
    lemma_first(ts, p, head, 3);
    lemma_option(ts, p + 4, w.features);
}

/// A word form is read as it is written.
proof fn lemma_form(ts: Tokens, p: int, form: (Seq<char>, Option<Assignments>))
    requires
        0 <= p,
        stands(ts, p, form_tokens(form)),
        !parser::at(ts, p + form_tokens(form).len(), TokenModel::Colon),
    ensures
        parser::form_at(ts, p) == Ok::<_, FaultAt>(
            ((form.0, said_or_nothing(form.1)), p + form_tokens(form).len()),
        ),
        form_tokens(form).len() > 0,
        form_tokens(form)[0] == TokenModel::Word,
{
    let w = form_tokens(form);
    lemma_first(ts, p, w, 0);
    lemma_first(ts, p, w, 1);
    if let Some(list) = form.1 {
        lemma_first(ts, p, w, 2);
        lemma_split(
            ts,
            p,
            seq![TokenModel::Word, TokenModel::Name(form.0), TokenModel::Colon],
            bracket_tokens(list),
        );
        lemma_bracket(ts, p + 3, list);
    }
}

/// Word forms are read as they are written.
proof fn lemma_forms(
    ts: Tokens,
    p: int,
    done: Seq<(Seq<char>, Features)>,
    list: Seq<(Seq<char>, Option<Assignments>)>,
)
    requires
        0 <= p,
        stands(ts, p, forms_tokens(list) + seq![TokenModel::RBrace]),
    ensures
        parser::forms_from(ts, p, done) == Ok::<_, FaultAt>(
            (done + said_forms(list), p + forms_tokens(list).len() + 1),
        ),
    decreases list.len(),
{
    let end = seq![TokenModel::RBrace];
    let w = forms_tokens(list);
    lemma_first(ts, p, w + end, 0);
    if list.len() == 0 {
        assert((w + end)[0] == TokenModel::RBrace);
        assert(done + said_forms(list) =~= done);
    } else {
        let first = form_tokens(list[0]);
        let more = forms_tokens(list.skip(1));
        assert(w + end =~= first + (more + end));
        lemma_split(ts, p, first, more + end);
        let q = p + first.len();
        lemma_first(ts, q, more + end, 0);
        if list.skip(1).len() == 0 {
            assert((more + end)[0] == TokenModel::RBrace);
        } else {
            assert(form_tokens(list.skip(1)[0])[0] == TokenModel::Word);
            assert((more + end)[0] == TokenModel::Word);
        }
        lemma_form(ts, p, list[0]);
        lemma_first(ts, p, first, 0);
        let one = (list[0].0, said_or_nothing(list[0].1));
        lemma_forms(ts, q, done.push(one), list.skip(1));
        assert(done.push(one) + said_forms(list.skip(1)) =~= done + said_forms(list));
    }
}

/// Whether a declaration or nothing follows at `p`.
pub open spec fn declaration_ends(ts: Tokens, p: int) -> bool {
    p < ts.len() ==> match ts[p].0 {
        TokenModel::Tree => true,
        TokenModel::Family => true,
        TokenModel::Word => true,
        TokenModel::Lemma => true,
        TokenModel::Include => true,
        _ => false,
    }
}

/// A declaration is read as it is written.
proof fn lemma_declaration(ts: Tokens, p: int, done: DeclModel, d: Written)
    requires
        0 <= p,
        can_write(d),
        stands(ts, p, written_tokens(d)),
        declaration_ends(ts, p + written_tokens(d).len()),
    ensures
        written_tokens(d).len() > 0,
        parser::declaration_at(ts, p, done) == Ok::<_, FaultAt>(
            (with_written(done, d), p + written_tokens(d).len()),
        ),
{
    let w = written_tokens(d);
    lemma_first(ts, p, w, 0);
    match d {
        Written::Tree(name, t) => {
            lemma_first(ts, p, w, 1);
            lemma_first(ts, p, w, 2);
            lemma_split(
                ts,
                p,
                seq![TokenModel::Tree, TokenModel::Name(name), TokenModel::Colon],
                tree_tokens(t),
            );
            lemma_tree(ts, p + 3, t);
        },
        Written::Family(name, members) => {
            let end = seq![TokenModel::RBrace];
            lemma_first(ts, p, w, 1);
            lemma_first(ts, p, w, 2);
            lemma_first(ts, p, w, 3);
            lemma_split(
                ts,
                p,
                seq![
                    TokenModel::Family,
                    TokenModel::Name(name),
                    TokenModel::Colon,
                    TokenModel::LBrace,
                ],
                names_tokens(members) + end,
            );
            lemma_split(ts, p + 4, names_tokens(members), end);
            lemma_first(ts, p + 4 + names_tokens(members).len(), end, 0);
            lemma_names(ts, p + 4, Seq::empty(), members);
            assert(Seq::<Seq<char>>::empty() + members =~= members);
        },
        Written::Word(x) => {
            lemma_word(ts, p, TokenModel::Word, x);
        },
        Written::Lemma(x, forms) => {
            let head = word_tokens(TokenModel::Lemma, x);
            let open = seq![TokenModel::LBrace];
            let inner = forms_tokens(forms);
            let end = seq![TokenModel::RBrace];
            lemma_split(ts, p, head, open + (inner + end));
            let q = p + head.len();
            lemma_split(ts, q, open, inner + end);
            lemma_first(ts, q, open, 0);
            lemma_first(ts, p, head, 0);
            lemma_word(ts, p, TokenModel::Lemma, x);
            lemma_forms(ts, q + 1, Seq::empty(), forms);
            assert(Seq::<(Seq<char>, Features)>::empty() + said_forms(forms) =~= said_forms(forms));
        },
        Written::Include(file) => {
            lemma_first(ts, p, w, 1);
        },
    }
}

/// Declarations are read as they are written.
proof fn lemma_declarations(ts: Tokens, p: int, done: DeclModel, list: Seq<Written>)
    requires
        0 <= p,
        forall|i: int| 0 <= i < list.len() ==> can_write(#[trigger] list[i]),
        stands(ts, p, all_tokens(list)),
        ts.len() == p + all_tokens(list).len(),
    ensures
        parser::declarations_from(ts, p, done) == Ok::<DeclModel, FaultAt>(with_all_written(done, list)),
    decreases list.len(),
{
    if list.len() > 0 {
        let rest = list.skip(1);
        let first = written_tokens(list[0]);
        lemma_split(ts, p, first, all_tokens(rest));
        let q = p + first.len();
        if rest.len() > 0 {
            lemma_keyword(rest[0]);
            assert(all_tokens(rest)[0] == written_tokens(rest[0])[0]);
            lemma_first(ts, q, all_tokens(rest), 0);
        } else {
            assert(all_tokens(rest).len() == 0);
        }
        lemma_declaration(ts, p, done, list[0]);
        lemma_declarations(ts, q, with_written(done, list[0]), rest);
    }
}

/// A declaration starts with its keyword.
proof fn lemma_keyword(d: Written)
    ensures
        written_tokens(d).len() > 0,
        match written_tokens(d)[0] {
            TokenModel::Tree => true,
            TokenModel::Family => true,
            TokenModel::Word => true,
            TokenModel::Lemma => true,
            TokenModel::Include => true,
            _ => false,
        },
{
}

/// Declarations are read as they are written, each kind in its order: names, markers,
/// annotations, children from left to right, members of families, words and their trees,
/// and lemmas with all their forms. Of the brackets behind a node the first is the top and
/// the second the bottom.
pub proof fn law_declarations_are_as_written(ts: Tokens, list: Seq<Written>)
    requires
        forall|i: int| 0 <= i < list.len() ==> can_write(#[trigger] list[i]),
        ts.len() == all_tokens(list).len(),
        forall|i: int| 0 <= i < ts.len() ==> #[trigger] ts[i].0 == all_tokens(list)[i],
    ensures
        parser::declarations_of(ts) == Ok::<DeclModel, FaultAt>(
            with_all_written(
                DeclModel {
                    trees: Seq::empty(),
                    families: Seq::empty(),
                    words: Seq::empty(),
                    lemmas: Seq::empty(),
                    includes: Seq::empty(),
                },
                list,
            ),
        ),
{
    let w = all_tokens(list);
    assert forall|i: int| 0 <= i < w.len() implies #[trigger] w[i] == ts[0 + i].0 by {
        assert(ts[i].0 == w[i]);
    }
    lemma_declarations(
        ts,
        0,
        DeclModel {
            trees: Seq::empty(),
            families: Seq::empty(),
            words: Seq::empty(),
            lemmas: Seq::empty(),
            includes: Seq::empty(),
        },
        list,
    );
}

/// Whether features say of every attribute what was said of it last.
pub open spec fn says_the_last(f: Features, list: Assignments) -> bool {
    &&& forall|i: int, j: int|
        0 <= i < j < f.len() ==> text::text_less((#[trigger] f[i]).0, (#[trigger] f[j]).0)
    &&& forall|i: int| #[trigger]
        lexicon_laws::is_last(list, list[i].0, i) ==> f.contains(list[i])
    &&& forall|k: int| 0 <= k < f.len() ==> list.contains(#[trigger] f[k])
}

/// Whether assignments say something of an attribute.
pub open spec fn mentions(list: Assignments, attribute: Seq<char>) -> bool {
    exists|i: int| 0 <= i < list.len() && (#[trigger] list[i]).0 == attribute
}

proof fn lemma_said(done: Features, list: Assignments)
    requires
        features::sorted_features(done),
    ensures
        features::sorted_features(said(done, list)),
        forall|i: int| #[trigger]
            lexicon_laws::is_last(list, list[i].0, i) ==> features::value_of(
                said(done, list),
                list[i].0,
            ) == Some(list[i].1),
        forall|a: Seq<char>|
            !mentions(list, a) ==> #[trigger] features::value_of(said(done, list), a)
                == features::value_of(done, a),
    decreases list.len(),
{
    if list.len() > 0 {
        let (attribute, value) = list[0];
        let found = features::lemma_set_exists(done, attribute, value);
        let now = features::with_feature(done, attribute, value);
        assert(features::sets_feature(done, attribute, value, now));
        let rest = list.skip(1);
        lemma_said(now, rest);
        let f = said(done, list);
        assert forall|i: int| #[trigger]
            lexicon_laws::is_last(list, list[i].0, i) implies features::value_of(f, list[i].0)
            == Some(list[i].1) by {
            if i == 0 {
                assert forall|j: int| 0 <= j < rest.len() implies (#[trigger] rest[j]).0
                    != attribute by {
                    assert(rest[j] == list[j + 1]);
                }
                assert(!mentions(rest, attribute));
                assert(features::value_of(f, attribute) == features::value_of(now, attribute));
            } else {
                assert(rest[i - 1] == list[i]);
                assert forall|j: int| i - 1 < j < rest.len() implies (#[trigger] rest[j]).0
                    != list[i].0 by {
                    assert(rest[j] == list[j + 1]);
                }
                assert(lexicon_laws::is_last(rest, rest[i - 1].0, i - 1));
            }
        }
        assert forall|a: Seq<char>| !mentions(list, a) implies #[trigger] features::value_of(f, a)
            == features::value_of(done, a) by {
            assert(list[0].0 != a);
            assert forall|j: int| 0 <= j < rest.len() implies (#[trigger] rest[j]).0 != a by {
                assert(rest[j] == list[j + 1]);
            }
            assert(!mentions(rest, a));
            assert(features::value_of(now, a) == features::value_of(done, a));
        }
    }
}

/// A bracket says of every attribute what is said of it last, and says nothing else.
pub proof fn law_last_assignment_counts(list: Assignments)
    ensures
        says_the_last(said(Seq::empty(), list), list),
{
    let none: Features = Seq::empty();
    let f = said(none, list);
    lemma_said(none, list);
    assert forall|i: int| #[trigger] lexicon_laws::is_last(list, list[i].0, i) implies f.contains(
        list[i],
    ) by {
        let k = choose|k: int| 0 <= k < f.len() && (#[trigger] f[k]).0 == list[i].0;
        assert(f[k] == list[i]);
    }
    assert forall|k: int| 0 <= k < f.len() implies list.contains(#[trigger] f[k]) by {
        features::lemma_value_at(f, k);
        if !mentions(list, f[k].0) {
            assert(features::value_of(f, f[k].0) == features::value_of(none, f[k].0));
        }
        let i = lemma_some_last(list, f[k].0);
        assert(lexicon_laws::is_last(list, list[i].0, i));
        assert(list[i] == f[k]);
    }
}

/// What is said of an attribute is said of it last somewhere.
proof fn lemma_some_last(list: Assignments, attribute: Seq<char>) -> (i: int)
    requires
        mentions(list, attribute),
    ensures
        lexicon_laws::is_last(list, attribute, i),
    decreases list.len(),
{
    let n = list.len() as int;
    if list[n - 1].0 == attribute {
        n - 1
    } else {
        let front = list.drop_last();
        let j = choose|j: int| 0 <= j < list.len() && (#[trigger] list[j]).0 == attribute;
        assert(front[j].0 == attribute);
        let i = lemma_some_last(front, attribute);
        assert forall|k: int| i < k < list.len() implies (#[trigger] list[k]).0 != attribute by {
            if k < n - 1 {
                assert(front[k] == list[k]);
            }
        }
        i
    }
}

} // verus!
