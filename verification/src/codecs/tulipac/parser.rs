//! Parsing the declarations of a Tulipac grammar.
use crate::arena;
use crate::arena::{tag_add, tag_arena};
use crate::codecs::tulipac::features;
use crate::codecs::tulipac::features::{AtomModel, FeatureAtom, FeatureMap, Features};
use crate::codecs::tulipac::syntax;
use crate::codecs::tulipac::syntax::{
    DeclModel, Declarations, ElementaryTree, FamilyDecl, FaultAt, LemmaDecl, LemmaModel, NodeModel,
    NodeType, ParseError, ParseErrorKind, ParseFault, RefModel, TagNode, TagTree, TreeDecl,
    TreeRef, WordDecl, WordForm, WordModel,
};
use crate::codecs::tulipac::tokens;
use crate::codecs::tulipac::tokens::{Token, TokenKind, TokenModel};
use crate::label_tree;
use crate::label_tree::LabelTree;
use crate::text;
use crate::text::is_text;
use packed_term_arena::tree::{Tree, TreeArena};
use vstd::prelude::*;

verus! {

/// Tokens with their places.
pub type Tokens = Seq<(TokenModel, usize)>;

/// Whether the token at `p` is `t`.
pub open spec fn at(ts: Tokens, p: int, t: TokenModel) -> bool {
    p < ts.len() && ts[p].0 == t
}

/// The place of the token at `p`, or the start of the text when there is none.
pub open spec fn place_of(ts: Tokens, p: int) -> usize {
    if p < ts.len() {
        ts[p].1
    } else {
        0
    }
}

/// The name at `p`, and the place after it.
pub open spec fn name_at(ts: Tokens, p: int) -> Result<(Seq<char>, int), FaultAt> {
    if p < ts.len() && ts[p].0 is Name {
        Ok((ts[p].0->Name_0, p + 1))
    } else {
        Err((place_of(ts, p), ParseFault::ExpectedIdentifier))
    }
}

/// The place after token `t` at `p`.
pub open spec fn expect_at(ts: Tokens, p: int, t: TokenModel) -> Result<int, FaultAt> {
    if at(ts, p, t) {
        Ok(p + 1)
    } else {
        Err(
            (
                place_of(ts, p),
                ParseFault::Expected {
                    wanted: t,
                    found: if p < ts.len() {
                        Some(ts[p].0)
                    } else {
                        None
                    },
                },
            ),
        )
    }
}

/// The feature value at `p`, and the place after it.
pub open spec fn atom_at(ts: Tokens, p: int) -> Result<(AtomModel, int), FaultAt> {
    if p < ts.len() && ts[p].0 is Name {
        Ok((AtomModel::Constant(ts[p].0->Name_0), p + 1))
    } else if p < ts.len() && ts[p].0 is Variable {
        Ok((AtomModel::Variable(ts[p].0->Variable_0), p + 1))
    } else {
        Err((place_of(ts, p), ParseFault::ExpectedFeatureValue))
    }
}

/// One `attribute = value` at `p`, and the place after it.
pub open spec fn assignment_at(ts: Tokens, p: int) -> Result<
    (Seq<char>, AtomModel, int),
    FaultAt,
> {
    match name_at(ts, p) {
        Ok((attribute, q)) => match expect_at(ts, q, TokenModel::Equals) {
            Ok(r) => match atom_at(ts, r) {
                Ok((value, s)) => Ok((attribute, value, s)),
                Err(e) => Err(e),
            },
            Err(e) => Err(e),
        },
        Err(e) => Err(e),
    }
}

/// The assignments from `p` up to the closing bracket, added to `done`.
pub open spec fn assignments_from(ts: Tokens, p: int, done: Features) -> Result<
    (Features, int),
    FaultAt,
>
    decreases ts.len() - p,
{
    if p >= ts.len() {
        Err((place_of(ts, p), ParseFault::ExpectedIdentifier))
    } else {
        match assignment_at(ts, p) {
            Ok((attribute, value, q)) => {
                let now = features::with_feature(done, attribute, value);
                if at(ts, q, TokenModel::RBracket) {
                    Ok((now, q + 1))
                } else {
                    match expect_at(ts, q, TokenModel::Comma) {
                        Ok(r) => assignments_from(ts, r, now),
                        Err(e) => Err(e),
                    }
                }
            },
            Err(e) => Err(e),
        }
    }
}

/// The feature map at `p`, and the place after it.
pub open spec fn features_at(ts: Tokens, p: int) -> Result<(Features, int), FaultAt> {
    match expect_at(ts, p, TokenModel::LBracket) {
        Ok(q) => if at(ts, q, TokenModel::RBracket) {
            Ok((Features::empty(), q + 1))
        } else {
            assignments_from(ts, q, Features::empty())
        },
        Err(e) => Err(e),
    }
}

/// The feature map at `p` if a bracket opens there, and the place after it.
pub open spec fn optional_features_at(ts: Tokens, p: int) -> Result<
    (Option<Features>, int),
    FaultAt,
> {
    if at(ts, p, TokenModel::LBracket) {
        match features_at(ts, p) {
            Ok((f, q)) => Ok((Some(f), q)),
            Err(e) => Err(e),
        }
    } else {
        Ok((None, p))
    }
}

/// The marker at `p` that says what a node stands for, and the place after it.
pub open spec fn marker_at(ts: Tokens, p: int) -> (NodeType, int) {
    if at(ts, p, TokenModel::Bang) {
        (NodeType::Substitution, p + 1)
    } else if at(ts, p, TokenModel::Star) {
        (NodeType::Foot, p + 1)
    } else if at(ts, p, TokenModel::Plus) {
        (NodeType::Head, p + 1)
    } else {
        (NodeType::Default, p)
    }
}

/// Whether an annotation at `p` forbids adjunction, and the place after it.
pub open spec fn annotation_at(ts: Tokens, p: int) -> (bool, int) {
    if p < ts.len() && ts[p].0 is Annotation {
        (ts[p].0->Annotation_0 == "NA"@, p + 1)
    } else {
        (false, p)
    }
}

/// The node at `p` without its children, and the place after it.
pub open spec fn node_head_at(ts: Tokens, p: int) -> Result<(NodeModel, int), FaultAt> {
    match name_at(ts, p) {
        Ok((label, a)) => {
            let (node_type, b) = marker_at(ts, a);
            let (no_adjunction, c) = annotation_at(ts, b);
            match optional_features_at(ts, c) {
                Ok((top, d)) => match optional_features_at(ts, d) {
                    Ok((bottom, e)) => Ok(
                        (NodeModel { label, node_type, no_adjunction, top, bottom }, e),
                    ),
                    Err(e) => Err(e),
                },
                Err(e) => Err(e),
            }
        },
        Err(e) => Err(e),
    }
}

/// The node at `p` with its children, and the place after it.
pub open spec fn node_at(ts: Tokens, p: int) -> Result<(TagTree, int), FaultAt>
    decreases ts.len() - p, 0int,
{
    match node_head_at(ts, p) {
        Ok((label, q)) => if at(ts, q, TokenModel::LBrace) && q >= p {
            match nodes_from(ts, q + 1) {
                Ok((children, r)) => Ok((LabelTree { label, children }, r)),
                Err(e) => Err(e),
            }
        } else {
            Ok((LabelTree { label, children: Seq::empty() }, q))
        },
        Err(e) => Err(e),
    }
}

/// The nodes from `p` up to the closing brace, and the place after it.
pub open spec fn nodes_from(ts: Tokens, p: int) -> Result<(Seq<TagTree>, int), FaultAt>
    decreases ts.len() - p, 1int,
{
    if at(ts, p, TokenModel::RBrace) {
        Ok((Seq::empty(), p + 1))
    } else if p >= ts.len() {
        Err((place_of(ts, p), ParseFault::UnterminatedChildren))
    } else {
        match node_at(ts, p) {
            Ok((first, q)) => if p < q <= ts.len() {
                match nodes_from(ts, q) {
                    Ok((rest, r)) => Ok((seq![first] + rest, r)),
                    Err(e) => Err(e),
                }
            } else {
                Err((place_of(ts, p), ParseFault::UnterminatedChildren))
            },
            Err(e) => Err(e),
        }
    }
}

/// `keyword name :` at `p`: the name, and the place after the colon.
pub open spec fn heading_at(ts: Tokens, p: int, keyword: TokenModel) -> Result<
    (Seq<char>, int),
    FaultAt,
> {
    match expect_at(ts, p, keyword) {
        Ok(q) => match name_at(ts, q) {
            Ok((name, r)) => match expect_at(ts, r, TokenModel::Colon) {
                Ok(s) => Ok((name, s)),
                Err(e) => Err(e),
            },
            Err(e) => Err(e),
        },
        Err(e) => Err(e),
    }
}

/// The elementary tree declared at `p`.
pub open spec fn tree_decl_at(ts: Tokens, p: int) -> Result<((Seq<char>, TagTree), int), FaultAt> {
    match heading_at(ts, p, TokenModel::Tree) {
        Ok((name, q)) => match node_at(ts, q) {
            Ok((tree, r)) => Ok(((name, tree), r)),
            Err(e) => Err(e),
        },
        Err(e) => Err(e),
    }
}

/// Names separated by commas from `p` on, after `done`.
pub open spec fn names_from(ts: Tokens, p: int, done: Seq<Seq<char>>) -> Result<
    (Seq<Seq<char>>, int),
    FaultAt,
>
    decreases ts.len() - p,
{
    match name_at(ts, p) {
        Ok((name, q)) => if at(ts, q, TokenModel::Comma) {
            names_from(ts, q + 1, done.push(name))
        } else {
            Ok((done.push(name), q))
        },
        Err(e) => Err(e),
    }
}

/// The tree family declared at `p`.
pub open spec fn family_decl_at(ts: Tokens, p: int) -> Result<
    ((Seq<char>, Seq<Seq<char>>), int),
    FaultAt,
> {
    match heading_at(ts, p, TokenModel::Family) {
        Ok((name, q)) => match expect_at(ts, q, TokenModel::LBrace) {
            Ok(r) => match names_from(ts, r, Seq::empty()) {
                Ok((members, s)) => match expect_at(ts, s, TokenModel::RBrace) {
                    Ok(t) => Ok(((name, members), t)),
                    Err(e) => Err(e),
                },
                Err(e) => Err(e),
            },
            Err(e) => Err(e),
        },
        Err(e) => Err(e),
    }
}

/// The tree or family named at `p`, and the place after it.
pub open spec fn target_at(ts: Tokens, p: int) -> Result<(RefModel, int), FaultAt> {
    if p < ts.len() && ts[p].0 is Name {
        Ok((RefModel::Tree(ts[p].0->Name_0), p + 1))
    } else if p < ts.len() && ts[p].0 is FamilyName {
        Ok((RefModel::Family(ts[p].0->FamilyName_0), p + 1))
    } else {
        Err((place_of(ts, p), ParseFault::ExpectedTreeName))
    }
}

/// The features at `p`, none without a bracket, and the place after them.
pub open spec fn given_features_at(ts: Tokens, p: int) -> Result<(Features, int), FaultAt> {
    match optional_features_at(ts, p) {
        Ok((Some(f), q)) => Ok((f, q)),
        Ok((None, q)) => Ok((Features::empty(), q)),
        Err(e) => Err(e),
    }
}

/// `keyword name : target features` at `p`.
pub open spec fn lexical_at(ts: Tokens, p: int, keyword: TokenModel) -> Result<
    (WordModel, int),
    FaultAt,
> {
    match heading_at(ts, p, keyword) {
        Ok((word, q)) => match target_at(ts, q) {
            Ok((target, r)) => match given_features_at(ts, r) {
                Ok((features, s)) => Ok((WordModel { word, target, features }, s)),
                Err(e) => Err(e),
            },
            Err(e) => Err(e),
        },
        Err(e) => Err(e),
    }
}

/// One word form of a lemma at `p`, and the place after it.
pub open spec fn form_at(ts: Tokens, p: int) -> Result<((Seq<char>, Features), int), FaultAt> {
    match expect_at(ts, p, TokenModel::Word) {
        Ok(q) => match name_at(ts, q) {
            Ok((word, r)) => if at(ts, r, TokenModel::Colon) {
                match features_at(ts, r + 1) {
                    Ok((features, s)) => Ok(((word, features), s)),
                    Err(e) => Err(e),
                }
            } else {
                Ok(((word, Features::empty()), r))
            },
            Err(e) => Err(e),
        },
        Err(e) => Err(e),
    }
}

/// The word forms from `p` up to the closing brace, after `done`.
pub open spec fn forms_from(ts: Tokens, p: int, done: Seq<(Seq<char>, Features)>) -> Result<
    (Seq<(Seq<char>, Features)>, int),
    FaultAt,
>
    decreases ts.len() - p,
{
    if at(ts, p, TokenModel::RBrace) {
        Ok((done, p + 1))
    } else {
        match form_at(ts, p) {
            Ok((form, q)) => if p < q <= ts.len() {
                forms_from(ts, q, done.push(form))
            } else {
                Err((place_of(ts, p), ParseFault::ExpectedIdentifier))
            },
            Err(e) => Err(e),
        }
    }
}

/// The lemma declared at `p`.
pub open spec fn lemma_decl_at(ts: Tokens, p: int) -> Result<(LemmaModel, int), FaultAt> {
    match lexical_at(ts, p, TokenModel::Lemma) {
        Ok((head, q)) => match expect_at(ts, q, TokenModel::LBrace) {
            Ok(r) => match forms_from(ts, r, Seq::empty()) {
                Ok((words, s)) => if words.len() == 0 {
                    Err((place_of(ts, s), ParseFault::EmptyLemma))
                } else {
                    Ok(
                        (
                            LemmaModel {
                                lemma: head.word,
                                target: head.target,
                                features: head.features,
                                words,
                            },
                            s,
                        ),
                    )
                },
                Err(e) => Err(e),
            },
            Err(e) => Err(e),
        },
        Err(e) => Err(e),
    }
}

/// The file included at `p`.
pub open spec fn include_at(ts: Tokens, p: int) -> Result<(Seq<char>, int), FaultAt> {
    match expect_at(ts, p, TokenModel::Include) {
        Ok(q) => name_at(ts, q),
        Err(e) => Err(e),
    }
}

/// One declaration at `p` added to `done`, and the place after it.
pub open spec fn declaration_at(ts: Tokens, p: int, done: DeclModel) -> Result<
    (DeclModel, int),
    FaultAt,
> {
    match ts[p].0 {
        TokenModel::Tree => match tree_decl_at(ts, p) {
            Ok((t, q)) => Ok((DeclModel { trees: done.trees.push(t), ..done }, q)),
            Err(e) => Err(e),
        },
        TokenModel::Family => match family_decl_at(ts, p) {
            Ok((f, q)) => Ok((DeclModel { families: done.families.push(f), ..done }, q)),
            Err(e) => Err(e),
        },
        TokenModel::Word => match lexical_at(ts, p, TokenModel::Word) {
            Ok((w, q)) => Ok((DeclModel { words: done.words.push(w), ..done }, q)),
            Err(e) => Err(e),
        },
        TokenModel::Lemma => match lemma_decl_at(ts, p) {
            Ok((l, q)) => Ok((DeclModel { lemmas: done.lemmas.push(l), ..done }, q)),
            Err(e) => Err(e),
        },
        TokenModel::Include => match include_at(ts, p) {
            Ok((i, q)) => Ok((DeclModel { includes: done.includes.push(i), ..done }, q)),
            Err(e) => Err(e),
        },
        _ => Err((ts[p].1, ParseFault::ExpectedDeclaration)),
    }
}

/// The declarations from `p` to the end, after `done`.
pub open spec fn declarations_from(ts: Tokens, p: int, done: DeclModel) -> Result<
    DeclModel,
    FaultAt,
>
    decreases ts.len() - p,
{
    if p >= ts.len() {
        Ok(done)
    } else {
        match declaration_at(ts, p, done) {
            Ok((now, q)) => if p < q <= ts.len() {
                declarations_from(ts, q, now)
            } else {
                Ok(now)
            },
            Err(e) => Err(e),
        }
    }
}

/// The declarations that tokens form, or the first fault.
pub open spec fn declarations_of(ts: Tokens) -> Result<DeclModel, FaultAt> {
    declarations_from(ts, 0, syntax::no_declarations())
}

proof fn lemma_assignments_move(ts: Tokens, p: int, done: Features)
    requires
        0 <= p,
    ensures
        assignments_from(ts, p, done) matches Ok((f, q)) ==> p < q <= ts.len(),
    decreases ts.len() - p,
{
    if p < ts.len() {
        if let Ok((attribute, value, q)) = assignment_at(ts, p) {
            if !at(ts, q, TokenModel::RBracket) && at(ts, q, TokenModel::Comma) {
                lemma_assignments_move(
                    ts,
                    q + 1,
                    features::with_feature(done, attribute, value),
                );
            }
        }
    }
}

proof fn lemma_features_move(ts: Tokens, p: int)
    requires
        0 <= p,
    ensures
        features_at(ts, p) matches Ok((f, q)) ==> p < q <= ts.len(),
        optional_features_at(ts, p) matches Ok((f, q)) ==> p <= q && (p <= ts.len() ==> q
            <= ts.len()),
{
    lemma_assignments_move(ts, p + 1, Features::empty());
}

proof fn lemma_node_head_moves(ts: Tokens, p: int)
    requires
        0 <= p,
    ensures
        node_head_at(ts, p) matches Ok((n, q)) ==> p < q <= ts.len(),
{
    if let Ok((label, a)) = name_at(ts, p) {
        let b = marker_at(ts, a).1;
        let c = annotation_at(ts, b).1;
        lemma_features_move(ts, c);
        if let Ok((top, d)) = optional_features_at(ts, c) {
            lemma_features_move(ts, d);
        }
    }
}

proof fn lemma_node_moves(ts: Tokens, p: int)
    requires
        0 <= p,
    ensures
        node_at(ts, p) matches Ok((t, q)) ==> p < q <= ts.len(),
    decreases ts.len() - p, 0int,
{
    lemma_node_head_moves(ts, p);
    if let Ok((label, q)) = node_head_at(ts, p) {
        if at(ts, q, TokenModel::LBrace) {
            lemma_nodes_move(ts, q + 1);
        }
    }
}

proof fn lemma_nodes_move(ts: Tokens, p: int)
    requires
        0 <= p,
    ensures
        nodes_from(ts, p) matches Ok((list, q)) ==> p < q <= ts.len(),
    decreases ts.len() - p, 1int,
{
    if p < ts.len() && !at(ts, p, TokenModel::RBrace) {
        lemma_node_moves(ts, p);
        if let Ok((t, q)) = node_at(ts, p) {
            lemma_nodes_move(ts, q);
        }
    }
}

/// A tree has no more nodes than it takes tokens.
proof fn lemma_node_size(ts: Tokens, p: int)
    requires
        0 <= p,
    ensures
        node_at(ts, p) matches Ok((t, q)) ==> label_tree::size(t) <= q - p,
    decreases ts.len() - p, 0int,
{
    lemma_node_head_moves(ts, p);
    if let Ok((label, q)) = node_head_at(ts, p) {
        if at(ts, q, TokenModel::LBrace) {
            lemma_nodes_move(ts, q + 1);
            lemma_nodes_size(ts, q + 1);
        } else {
            assert(label_tree::sizes(Seq::<TagTree>::empty()) == 0);
        }
    }
}

proof fn lemma_nodes_size(ts: Tokens, p: int)
    requires
        0 <= p,
    ensures
        nodes_from(ts, p) matches Ok((list, q)) ==> label_tree::sizes(list) <= q - p,
    decreases ts.len() - p, 1int,
{
    if at(ts, p, TokenModel::RBrace) {
        assert(label_tree::sizes(Seq::<TagTree>::empty()) == 0);
    } else if p < ts.len() {
        lemma_node_moves(ts, p);
        lemma_node_size(ts, p);
        if let Ok((t, q)) = node_at(ts, p) {
            lemma_nodes_size(ts, q);
            if let Ok((rest, r)) = nodes_from(ts, q) {
                label_tree::lemma_sizes_concat(seq![t], rest);
                assert(seq![t].drop_last() =~= Seq::empty());
                assert(label_tree::sizes(seq![t].drop_last()) == 0);
                assert(label_tree::sizes(seq![t]) == label_tree::size(t));
            }
        }
    }
}

proof fn lemma_names_move(ts: Tokens, p: int, done: Seq<Seq<char>>)
    requires
        0 <= p,
    ensures
        names_from(ts, p, done) matches Ok((list, q)) ==> p < q <= ts.len(),
    decreases ts.len() - p,
{
    if let Ok((name, q)) = name_at(ts, p) {
        if at(ts, q, TokenModel::Comma) {
            lemma_names_move(ts, q + 1, done.push(name));
        }
    }
}

proof fn lemma_form_moves(ts: Tokens, p: int)
    requires
        0 <= p,
    ensures
        form_at(ts, p) matches Ok((form, q)) ==> p < q <= ts.len(),
{
    if at(ts, p, TokenModel::Word) {
        if let Ok((word, r)) = name_at(ts, p + 1) {
            lemma_features_move(ts, r + 1);
        }
    }
}

proof fn lemma_forms_move(ts: Tokens, p: int, done: Seq<(Seq<char>, Features)>)
    requires
        0 <= p,
    ensures
        forms_from(ts, p, done) matches Ok((list, q)) ==> p < q <= ts.len(),
    decreases ts.len() - p,
{
    if !at(ts, p, TokenModel::RBrace) {
        lemma_form_moves(ts, p);
        if let Ok((form, q)) = form_at(ts, p) {
            lemma_forms_move(ts, q, done.push(form));
        }
    }
}

proof fn lemma_lexical_moves(ts: Tokens, p: int, keyword: TokenModel)
    requires
        0 <= p,
    ensures
        lexical_at(ts, p, keyword) matches Ok((w, q)) ==> p < q <= ts.len(),
{
    if let Ok((word, q)) = heading_at(ts, p, keyword) {
        if let Ok((target, r)) = target_at(ts, q) {
            lemma_features_move(ts, r);
        }
    }
}

proof fn lemma_declaration_moves(ts: Tokens, p: int, done: DeclModel)
    requires
        0 <= p < ts.len(),
    ensures
        declaration_at(ts, p, done) matches Ok((d, q)) ==> p < q <= ts.len(),
{
    match ts[p].0 {
        TokenModel::Tree => {
            if let Ok((name, q)) = heading_at(ts, p, TokenModel::Tree) {
                lemma_node_moves(ts, q);
            }
        },
        TokenModel::Family => {
            if let Ok((name, q)) = heading_at(ts, p, TokenModel::Family) {
                if let Ok(r) = expect_at(ts, q, TokenModel::LBrace) {
                    lemma_names_move(ts, r, Seq::empty());
                }
            }
        },
        TokenModel::Word => {
            lemma_lexical_moves(ts, p, TokenModel::Word);
        },
        TokenModel::Lemma => {
            lemma_lexical_moves(ts, p, TokenModel::Lemma);
            if let Ok((head, q)) = lexical_at(ts, p, TokenModel::Lemma) {
                if let Ok(r) = expect_at(ts, q, TokenModel::LBrace) {
                    lemma_forms_move(ts, r, Seq::empty());
                }
            }
        },
        _ => {},
    }
}

/// A token of its own kind.
fn copy_kind(t: &TokenKind) -> (c: TokenKind)
    ensures
        c@ == t@,
{
    match t {
        TokenKind::Tree => TokenKind::Tree,
        TokenKind::Family => TokenKind::Family,
        TokenKind::Word => TokenKind::Word,
        TokenKind::Lemma => TokenKind::Lemma,
        TokenKind::Include => TokenKind::Include,
        TokenKind::Name(s) => TokenKind::Name(s.clone()),
        TokenKind::FamilyName(s) => TokenKind::FamilyName(s.clone()),
        TokenKind::Annotation(s) => TokenKind::Annotation(s.clone()),
        TokenKind::Variable(s) => TokenKind::Variable(s.clone()),
        TokenKind::Bang => TokenKind::Bang,
        TokenKind::Star => TokenKind::Star,
        TokenKind::Plus => TokenKind::Plus,
        TokenKind::Colon => TokenKind::Colon,
        TokenKind::LBrace => TokenKind::LBrace,
        TokenKind::RBrace => TokenKind::RBrace,
        TokenKind::LBracket => TokenKind::LBracket,
        TokenKind::RBracket => TokenKind::RBracket,
        TokenKind::Comma => TokenKind::Comma,
        TokenKind::Equals => TokenKind::Equals,
    }
}

/// Whether two tokens without text are the same.
fn same_simple(a: &TokenKind, b: &TokenKind) -> (r: bool)
    requires
        !(b@ is Name || b@ is FamilyName || b@ is Annotation || b@ is Variable),
    ensures
        r == (a@ == b@),
{
    match (a, b) {
        (TokenKind::Tree, TokenKind::Tree) => true,
        (TokenKind::Family, TokenKind::Family) => true,
        (TokenKind::Word, TokenKind::Word) => true,
        (TokenKind::Lemma, TokenKind::Lemma) => true,
        (TokenKind::Include, TokenKind::Include) => true,
        (TokenKind::Bang, TokenKind::Bang) => true,
        (TokenKind::Star, TokenKind::Star) => true,
        (TokenKind::Plus, TokenKind::Plus) => true,
        (TokenKind::Colon, TokenKind::Colon) => true,
        (TokenKind::LBrace, TokenKind::LBrace) => true,
        (TokenKind::RBrace, TokenKind::RBrace) => true,
        (TokenKind::LBracket, TokenKind::LBracket) => true,
        (TokenKind::RBracket, TokenKind::RBracket) => true,
        (TokenKind::Comma, TokenKind::Comma) => true,
        (TokenKind::Equals, TokenKind::Equals) => true,
        _ => false,
    }
}

/// Tokens to parse.
struct Parser<'t> {
    tokens: &'t Vec<Token>,
}

impl<'t> Parser<'t> {
    spec fn ts(&self) -> Tokens {
        tokens::token_views(self.tokens@)
    }

    fn at(&self, p: usize, t: TokenKind) -> (b: bool)
        requires
            !(t@ is Name || t@ is FamilyName || t@ is Annotation || t@ is Variable),
        ensures
            b == at(self.ts(), p as int, t@),
            b ==> p < usize::MAX,
    {
        p < self.tokens.len() && same_simple(&self.tokens[p].kind, &t)
    }

    fn error(&self, p: usize, kind: ParseErrorKind) -> (e: ParseError)
        ensures
            e@ == (place_of(self.ts(), p as int), kind@),
    {
        if p < self.tokens.len() {
            ParseError { offset: self.tokens[p].offset, kind }
        } else {
            ParseError { offset: 0, kind }
        }
    }

    fn name(&self, p: usize) -> (r: Result<(String, usize), ParseError>)
        ensures
            match r {
                Ok((s, q)) => name_at(self.ts(), p as int) == Ok::<(Seq<char>, int), FaultAt>(
                    (s@, q as int),
                ),
                Err(e) => name_at(self.ts(), p as int) == Err::<(Seq<char>, int), FaultAt>(e@),
            },
    {
        if p < self.tokens.len() {
            if let TokenKind::Name(s) = &self.tokens[p].kind {
                return Ok((s.clone(), p + 1));
            }
        }
        Err(self.error(p, ParseErrorKind::ExpectedIdentifier))
    }

    fn expect(&self, p: usize, t: TokenKind) -> (r: Result<usize, ParseError>)
        requires
            !(t@ is Name || t@ is FamilyName || t@ is Annotation || t@ is Variable),
        ensures
            match r {
                Ok(q) => expect_at(self.ts(), p as int, t@) == Ok::<int, FaultAt>(q as int),
                Err(e) => expect_at(self.ts(), p as int, t@) == Err::<int, FaultAt>(e@),
            },
    {
        if p < self.tokens.len() {
            if same_simple(&self.tokens[p].kind, &t) {
                return Ok(p + 1);
            }
            let found = Some(copy_kind(&self.tokens[p].kind));
            return Err(self.error(p, ParseErrorKind::Expected { wanted: t, found }));
        }
        Err(self.error(p, ParseErrorKind::Expected { wanted: t, found: None }))
    }

    fn atom(&self, p: usize) -> (r: Result<(FeatureAtom, usize), ParseError>)
        ensures
            match r {
                Ok((v, q)) => atom_at(self.ts(), p as int) == Ok::<(AtomModel, int), FaultAt>(
                    (v@, q as int),
                ),
                Err(e) => atom_at(self.ts(), p as int) == Err::<(AtomModel, int), FaultAt>(e@),
            },
    {
        if p < self.tokens.len() {
            match &self.tokens[p].kind {
                TokenKind::Name(s) => {
                    return Ok((FeatureAtom::Constant(s.clone()), p + 1));
                },
                TokenKind::Variable(s) => {
                    return Ok((FeatureAtom::Variable(s.clone()), p + 1));
                },
                _ => {},
            }
        }
        Err(self.error(p, ParseErrorKind::ExpectedFeatureValue))
    }

    fn assignment(&self, p: usize) -> (r: Result<(String, FeatureAtom, usize), ParseError>)
        ensures
            match r {
                Ok((a, v, q)) => assignment_at(self.ts(), p as int) == Ok::<
                    (Seq<char>, AtomModel, int),
                    FaultAt,
                >((a@, v@, q as int)),
                Err(e) => assignment_at(self.ts(), p as int) == Err::<
                    (Seq<char>, AtomModel, int),
                    FaultAt,
                >(e@),
            },
    {
        let (attribute, q) = self.name(p)?;
        let r: usize = self.expect(q, TokenKind::Equals)?;
        let (value, s) = self.atom(r)?;
        Ok((attribute, value, s))
    }

    fn features(&self, p: usize) -> (r: Result<(FeatureMap, usize), ParseError>)
        ensures
            match r {
                Ok((f, q)) => features_at(self.ts(), p as int) == Ok::<(Features, int), FaultAt>(
                    (f@, q as int),
                ) && q <= self.ts().len(),
                Err(e) => features_at(self.ts(), p as int) == Err::<(Features, int), FaultAt>(e@),
            },
    {
        proof {
            lemma_features_move(self.ts(), p as int);
        }
        let start: usize = self.expect(p, TokenKind::LBracket)?;
        let mut map = FeatureMap::new();
        if self.at(start, TokenKind::RBracket) {
            return Ok((map, start + 1));
        }
        let ghost owed = assignments_from(self.ts(), start as int, Features::empty());
        let mut q: usize = start;
        loop
            invariant
                owed == features_at(self.ts(), p as int),
                owed == assignments_from(self.ts(), q as int, map@),
                q <= self.ts().len(),
                self.ts().len() == self.tokens@.len(),
                features_at(self.ts(), p as int) matches Ok((f, r)) ==> r <= self.ts().len(),
            decreases self.ts().len() - q,
        {
            let (attribute, value, r) = self.assignment(q)?;
            let ghost before = map@;
            let ghost key = attribute@;
            let ghost val = value@;
            map.insert(attribute, value);
            proof {
                features::lemma_sets_feature_unique(
                    before,
                    key,
                    val,
                    map@,
                    features::with_feature(before, key, val),
                );
            }
            if self.at(r, TokenKind::RBracket) {
                return Ok((map, r + 1));
            }
            q = self.expect(r, TokenKind::Comma)?;
        }
    }

    fn optional_features(&self, p: usize) -> (r: Result<(Option<FeatureMap>, usize), ParseError>)
        requires
            p <= self.ts().len(),
        ensures
            match r {
                Ok((f, q)) => optional_features_at(self.ts(), p as int) == Ok::<
                    (Option<Features>, int),
                    FaultAt,
                >((syntax::optional_features(f), q as int)) && q <= self.ts().len(),
                Err(e) => optional_features_at(self.ts(), p as int) == Err::<
                    (Option<Features>, int),
                    FaultAt,
                >(e@),
            },
    {
        if self.at(p, TokenKind::LBracket) {
            let (f, q) = self.features(p)?;
            Ok((Some(f), q))
        } else {
            Ok((None, p))
        }
    }

    fn given_features(&self, p: usize) -> (r: Result<(FeatureMap, usize), ParseError>)
        requires
            p <= self.ts().len(),
        ensures
            match r {
                Ok((f, q)) => given_features_at(self.ts(), p as int) == Ok::<
                    (Features, int),
                    FaultAt,
                >((f@, q as int)) && q <= self.ts().len(),
                Err(e) => given_features_at(self.ts(), p as int) == Err::<
                    (Features, int),
                    FaultAt,
                >(e@),
            },
    {
        let (f, q) = self.optional_features(p)?;
        match f {
            Some(map) => Ok((map, q)),
            None => Ok((FeatureMap::new(), q)),
        }
    }

    fn node_head(&self, p: usize) -> (r: Result<(TagNode, usize), ParseError>)
        ensures
            match r {
                Ok((n, q)) => node_head_at(self.ts(), p as int) == Ok::<(NodeModel, int), FaultAt>(
                    (n@, q as int),
                ) && p < q <= self.ts().len(),
                Err(e) => node_head_at(self.ts(), p as int) == Err::<(NodeModel, int), FaultAt>(e@),
            },
    {
        proof {
            lemma_node_head_moves(self.ts(), p as int);
        }
        let (label, a) = self.name(p)?;
        assert(a <= self.ts().len());
        let mut node_type = NodeType::Default;
        let mut b: usize = a;
        if self.at(a, TokenKind::Bang) {
            node_type = NodeType::Substitution;
            b = a + 1;
        } else if self.at(a, TokenKind::Star) {
            node_type = NodeType::Foot;
            b = a + 1;
        } else if self.at(a, TokenKind::Plus) {
            node_type = NodeType::Head;
            b = a + 1;
        }
        let mut no_adjunction = false;
        let mut c: usize = b;
        if b < self.tokens.len() {
            if let TokenKind::Annotation(s) = &self.tokens[b].kind {
                no_adjunction = is_text(s, "NA");
                c = b + 1;
            }
        }
        let (top, d) = self.optional_features(c)?;
        let (bottom, e) = self.optional_features(d)?;
        Ok((TagNode { label, node_type, no_adjunction, top, bottom }, e))
    }

    fn node(&self, p: usize, nodes: &mut TreeArena<TagNode>) -> (r: Result<
        (Tree, usize),
        ParseError,
    >)
        requires
            arena::children_first(syntax::arena_models(*old(nodes))),
        ensures
            arena::children_first(syntax::arena_models(*final(nodes))),
            label_tree::grows(
                syntax::arena_models(*old(nodes)),
                syntax::arena_models(*final(nodes)),
            ),
            match r {
                Ok((t, q)) => {
                    &&& arena::tree_number(t) < syntax::arena_models(*final(nodes)).len()
                    &&& node_at(self.ts(), p as int) == Ok::<(TagTree, int), FaultAt>(
                        (
                            label_tree::tree_at(
                                syntax::arena_models(*final(nodes)),
                                arena::tree_number(t),
                            ),
                            q as int,
                        ),
                    )
                    &&& p < q <= self.ts().len()
                },
                Err(e) => node_at(self.ts(), p as int) == Err::<(TagTree, int), FaultAt>(e@),
            },
        decreases self.ts().len() - p,
    {
        let ghost start = syntax::arena_models(*nodes);
        proof {
            lemma_node_moves(self.ts(), p as int);
        }
        let (head, q) = self.node_head(p)?;
        let ghost label = head@;
        let mut children: Vec<Tree> = Vec::new();
        let ghost mut trees: Seq<TagTree> = Seq::empty();
        let mut end: usize = q;
        if self.at(q, TokenKind::LBrace) {
            let ghost owed = nodes_from(self.ts(), q + 1);
            let mut c: usize = q + 1;
            proof {
                lemma_nodes_move(self.ts(), q + 1);
                lemma_before_nothing(owed);
            }
            while !self.at(c, TokenKind::RBrace)
                invariant
                    p < q < c <= self.ts().len(),
                    owed == nodes_from(self.ts(), q + 1),
                    owed == before(trees, nodes_from(self.ts(), c as int)),
                    node_head_at(self.ts(), p as int) == Ok::<(NodeModel, int), FaultAt>(
                        (label, q as int),
                    ),
                    at(self.ts(), q as int, TokenModel::LBrace),
                    start == syntax::arena_models(*old(nodes)),
                    arena::children_first(syntax::arena_models(*nodes)),
                    label_tree::grows(start, syntax::arena_models(*nodes)),
                    label_tree::handles_ok(syntax::arena_models(*nodes), children@, trees),
                decreases self.ts().len() - c,
            {
                if c >= self.tokens.len() {
                    return Err(self.error(c, ParseErrorKind::UnterminatedChildren));
                }
                let ghost then = syntax::arena_models(*nodes);
                let result = self.node(c, nodes);
                let ghost now = syntax::arena_models(*nodes);
                proof {
                    label_tree::lemma_grows_transitive(start, then, now);
                    label_tree::lemma_handles_grow(then, now, children@, trees);
                }
                match result {
                    Ok((t, next)) => {
                        let ghost one = label_tree::tree_at(now, arena::tree_number(t));
                        children.push(t);
                        proof {
                            lemma_before_step(trees, one, nodes_from(self.ts(), next as int));
                            trees = trees.push(one);
                        }
                        c = next;
                    },
                    Err(e) => {
                        return Err(e);
                    },
                }
            }
            end = c + 1;
            proof {
                assert(trees + Seq::<TagTree>::empty() =~= trees);
            }
        }
        let ghost then = syntax::arena_models(*nodes);
        let ghost raw = arena::tag_nodes(*nodes);
        let ghost node = head;
        proof {
            label_tree::lemma_add(then, label, children@, trees);
        }
        let t = tag_add(nodes, head, children);
        proof {
            let now = syntax::arena_models(*nodes);
            assert(now =~= then.push((label, arena::tree_numbers(children@))));
            label_tree::lemma_grows_transitive(start, then, now);
        }
        Ok((t, end))
    }

    fn heading(&self, p: usize, keyword: TokenKind) -> (r: Result<(String, usize), ParseError>)
        requires
            !(keyword@ is Name || keyword@ is FamilyName || keyword@ is Annotation
                || keyword@ is Variable),
        ensures
            match r {
                Ok((s, q)) => heading_at(self.ts(), p as int, keyword@) == Ok::<
                    (Seq<char>, int),
                    FaultAt,
                >((s@, q as int)) && q <= self.ts().len(),
                Err(e) => heading_at(self.ts(), p as int, keyword@) == Err::<
                    (Seq<char>, int),
                    FaultAt,
                >(e@),
            },
    {
        let q: usize = self.expect(p, keyword)?;
        let (name, r) = self.name(q)?;
        let s: usize = self.expect(r, TokenKind::Colon)?;
        Ok((name, s))
    }

    fn tree_decl(&self, p: usize) -> (r: Result<(TreeDecl, usize), ParseError>)
        ensures
            match r {
                Ok((t, q)) => tree_decl_at(self.ts(), p as int) == Ok::<
                    ((Seq<char>, TagTree), int),
                    FaultAt,
                >((t@, q as int)) && t.tree.wf() && q <= self.ts().len(),
                Err(e) => tree_decl_at(self.ts(), p as int) == Err::<
                    ((Seq<char>, TagTree), int),
                    FaultAt,
                >(e@),
            },
    {
        let (name, q) = self.heading(p, TokenKind::Tree)?;
        let mut nodes = tag_arena();
        assert(arena::children_first(syntax::arena_models(nodes)));
        let (root, r) = self.node(q, &mut nodes)?;
        proof {
            lemma_node_size(self.ts(), q as int);
        }
        Ok((TreeDecl { name, tree: ElementaryTree { arena: nodes, root } }, r))
    }

    fn family_decl(&self, p: usize) -> (r: Result<(FamilyDecl, usize), ParseError>)
        ensures
            match r {
                Ok((f, q)) => family_decl_at(self.ts(), p as int) == Ok::<
                    ((Seq<char>, Seq<Seq<char>>), int),
                    FaultAt,
                >((f@, q as int)) && q <= self.ts().len(),
                Err(e) => family_decl_at(self.ts(), p as int) == Err::<
                    ((Seq<char>, Seq<Seq<char>>), int),
                    FaultAt,
                >(e@),
            },
    {
        let (name, q) = self.heading(p, TokenKind::Family)?;
        let start: usize = self.expect(q, TokenKind::LBrace)?;
        let ghost owed = names_from(self.ts(), start as int, Seq::empty());
        let mut members: Vec<String> = Vec::new();
        assert(text::texts(members@) =~= Seq::empty());
        let mut c: usize = start;
        loop
            invariant
                c <= self.ts().len(),
                self.ts().len() == self.tokens@.len(),
                owed == names_from(self.ts(), c as int, text::texts(members@)),
                heading_at(self.ts(), p as int, TokenModel::Family) == Ok::<
                    (Seq<char>, int),
                    FaultAt,
                >((name@, q as int)),
                expect_at(self.ts(), q as int, TokenModel::LBrace) == Ok::<int, FaultAt>(
                    start as int,
                ),
                owed == names_from(self.ts(), start as int, Seq::empty()),
            decreases self.ts().len() - c,
        {
            let (member, d) = self.name(c)?;
            let ghost before = text::texts(members@);
            let ghost one = member@;
            members.push(member);
            assert(text::texts(members@) =~= before.push(one));
            if self.at(d, TokenKind::Comma) {
                c = d + 1;
            } else {
                let end: usize = self.expect(d, TokenKind::RBrace)?;
                return Ok((FamilyDecl { name, members }, end));
            }
        }
    }

    fn target(&self, p: usize) -> (r: Result<(TreeRef, usize), ParseError>)
        ensures
            match r {
                Ok((t, q)) => target_at(self.ts(), p as int) == Ok::<(RefModel, int), FaultAt>(
                    (t@, q as int),
                ) && q <= self.ts().len(),
                Err(e) => target_at(self.ts(), p as int) == Err::<(RefModel, int), FaultAt>(e@),
            },
    {
        if p < self.tokens.len() {
            match &self.tokens[p].kind {
                TokenKind::Name(s) => {
                    return Ok((TreeRef::Tree(s.clone()), p + 1));
                },
                TokenKind::FamilyName(s) => {
                    return Ok((TreeRef::Family(s.clone()), p + 1));
                },
                _ => {},
            }
        }
        Err(self.error(p, ParseErrorKind::ExpectedTreeName))
    }

    fn lexical(&self, p: usize, keyword: TokenKind) -> (r: Result<(WordDecl, usize), ParseError>)
        requires
            !(keyword@ is Name || keyword@ is FamilyName || keyword@ is Annotation
                || keyword@ is Variable),
        ensures
            match r {
                Ok((w, q)) => lexical_at(self.ts(), p as int, keyword@) == Ok::<
                    (WordModel, int),
                    FaultAt,
                >((w@, q as int)) && q <= self.ts().len(),
                Err(e) => lexical_at(self.ts(), p as int, keyword@) == Err::<
                    (WordModel, int),
                    FaultAt,
                >(e@),
            },
    {
        let (word, q) = self.heading(p, keyword)?;
        let (target, r) = self.target(q)?;
        let (features, s) = self.given_features(r)?;
        Ok((WordDecl { word, target, features }, s))
    }

    fn form(&self, p: usize) -> (r: Result<(WordForm, usize), ParseError>)
        ensures
            match r {
                Ok((f, q)) => form_at(self.ts(), p as int) == Ok::<
                    ((Seq<char>, Features), int),
                    FaultAt,
                >((f@, q as int)) && p < q <= self.ts().len(),
                Err(e) => form_at(self.ts(), p as int) == Err::<
                    ((Seq<char>, Features), int),
                    FaultAt,
                >(e@),
            },
    {
        proof {
            lemma_form_moves(self.ts(), p as int);
        }
        let q: usize = self.expect(p, TokenKind::Word)?;
        let (word, r) = self.name(q)?;
        if self.at(r, TokenKind::Colon) {
            let (features, s) = self.features(r + 1)?;
            Ok((WordForm { word, features }, s))
        } else {
            Ok((WordForm { word, features: FeatureMap::new() }, r))
        }
    }

    fn lemma_decl(&self, p: usize) -> (r: Result<(LemmaDecl, usize), ParseError>)
        ensures
            match r {
                Ok((l, q)) => lemma_decl_at(self.ts(), p as int) == Ok::<
                    (LemmaModel, int),
                    FaultAt,
                >((l@, q as int)) && q <= self.ts().len(),
                Err(e) => lemma_decl_at(self.ts(), p as int) == Err::<
                    (LemmaModel, int),
                    FaultAt,
                >(e@),
            },
    {
        let (head, q) = self.lexical(p, TokenKind::Lemma)?;
        let start: usize = self.expect(q, TokenKind::LBrace)?;
        let ghost owed = forms_from(self.ts(), start as int, Seq::empty());
        let mut words: Vec<WordForm> = Vec::new();
        assert(syntax::form_views(words@) =~= Seq::empty());
        let mut c: usize = start;
        while !self.at(c, TokenKind::RBrace)
            invariant
                c <= self.ts().len(),
                owed == forms_from(self.ts(), c as int, syntax::form_views(words@)),
                lexical_at(self.ts(), p as int, TokenModel::Lemma) == Ok::<
                    (WordModel, int),
                    FaultAt,
                >((head@, q as int)),
                expect_at(self.ts(), q as int, TokenModel::LBrace) == Ok::<int, FaultAt>(
                    start as int,
                ),
                owed == forms_from(self.ts(), start as int, Seq::empty()),
            decreases self.ts().len() - c,
        {
            let (form, d) = self.form(c)?;
            let ghost before = syntax::form_views(words@);
            let ghost one = form@;
            words.push(form);
            assert(syntax::form_views(words@) =~= before.push(one));
            c = d;
        }
        let end: usize = c + 1;
        if words.len() == 0 {
            assert(syntax::form_views(words@).len() == 0);
            return Err(self.error(end, ParseErrorKind::EmptyLemma));
        }
        let WordDecl { word, target, features } = head;
        Ok((LemmaDecl { lemma: word, target, features, words }, end))
    }

    fn included_file(&self, p: usize) -> (r: Result<(String, usize), ParseError>)
        ensures
            match r {
                Ok((s, q)) => include_at(self.ts(), p as int) == Ok::<(Seq<char>, int), FaultAt>(
                    (s@, q as int),
                ) && q <= self.ts().len(),
                Err(e) => include_at(self.ts(), p as int) == Err::<(Seq<char>, int), FaultAt>(e@),
            },
    {
        let q: usize = self.expect(p, TokenKind::Include)?;
        self.name(q)
    }
}

/// Trees in front of further ones.
spec fn before(
    front: Seq<TagTree>,
    rest: Result<(Seq<TagTree>, int), FaultAt>,
) -> Result<(Seq<TagTree>, int), FaultAt> {
    match rest {
        Ok((trees, p)) => Ok((front + trees, p)),
        Err(e) => Err(e),
    }
}

proof fn lemma_before_nothing(rest: Result<(Seq<TagTree>, int), FaultAt>)
    ensures
        before(Seq::empty(), rest) == rest,
{
    if let Ok((trees, p)) = rest {
        assert(Seq::<TagTree>::empty() + trees =~= trees);
    }
}

proof fn lemma_before_step(
    front: Seq<TagTree>,
    one: TagTree,
    rest: Result<(Seq<TagTree>, int), FaultAt>,
)
    ensures
        before(front.push(one), rest) == before(
            front,
            match rest {
                Ok((trees, p)) => Ok((seq![one] + trees, p)),
                Err(e) => Err(e),
            },
        ),
{
    if let Ok((trees, p)) = rest {
        assert(front.push(one) + trees =~= front + (seq![one] + trees));
    }
}

/// Parses the declarations of a grammar.
pub fn parse_grammar(tokens: &Vec<Token>) -> (r: Result<Declarations, ParseError>)
    ensures
        match r {
            Ok(d) => declarations_of(tokens::token_views(tokens@)) == Ok::<DeclModel, FaultAt>(d@)
                && d.wf(),
            Err(e) => declarations_of(tokens::token_views(tokens@)) == Err::<DeclModel, FaultAt>(
                e@,
            ),
        },
{
    let parser = Parser { tokens };
    let ghost ts = parser.ts();
    let mut d = Declarations::new();
    let mut p: usize = 0;
    while p < tokens.len()
        invariant
            parser.tokens == tokens,
            ts == parser.ts(),
            ts == tokens::token_views(tokens@),
            p <= ts.len(),
            d.wf(),
            declarations_of(ts) == declarations_from(ts, p as int, d@),
        decreases ts.len() - p,
    {
        let ghost before = d@;
        let ghost held = d;
        proof {
            lemma_declaration_moves(ts, p as int, before);
        }
        assert(ts[p as int] == tokens@[p as int]@);
        let mut next: usize = p;
        match &tokens[p].kind {
            TokenKind::Tree => {
                let (t, q) = parser.tree_decl(p)?;
                let ghost one = t@;
                let ghost was = syntax::tree_views(d.trees@);
                d.trees.push(t);
                proof {
                    assert(syntax::tree_views(d.trees@) =~= was.push(one));
                    assert forall|i: int| 0 <= i < d.trees@.len() implies (
                    #[trigger] d.trees@[i]).tree.wf() by {
                        if i < held.trees@.len() {
                            assert(d.trees@[i] == held.trees@[i]);
                        }
                    }
                }
                next = q;
            },
            TokenKind::Family => {
                let (f, q) = parser.family_decl(p)?;
                let ghost one = f@;
                let ghost was = syntax::family_views(d.families@);
                d.families.push(f);
                assert(syntax::family_views(d.families@) =~= was.push(one));
                next = q;
            },
            TokenKind::Word => {
                let (w, q) = parser.lexical(p, TokenKind::Word)?;
                let ghost one = w@;
                let ghost was = syntax::word_views(d.words@);
                d.words.push(w);
                assert(syntax::word_views(d.words@) =~= was.push(one));
                next = q;
            },
            TokenKind::Lemma => {
                let (l, q) = parser.lemma_decl(p)?;
                let ghost one = l@;
                let ghost was = syntax::lemma_views(d.lemmas@);
                d.lemmas.push(l);
                assert(syntax::lemma_views(d.lemmas@) =~= was.push(one));
                next = q;
            },
            TokenKind::Include => {
                let (s, q) = parser.included_file(p)?;
                let ghost one = s@;
                let ghost was = text::texts(d.includes@);
                d.includes.push(s);
                assert(text::texts(d.includes@) =~= was.push(one));
                next = q;
            },
            _ => {
                return Err(parser.error(p, ParseErrorKind::ExpectedDeclaration));
            },
        }
        p = next;
    }
    Ok(d)
}

} // verus!
