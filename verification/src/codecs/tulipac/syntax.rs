//! The declarations of a Tulipac grammar.
use crate::arena;
use crate::codecs::tulipac::features::{FeatureMap, Features};
use crate::codecs::tulipac::tokens::{TokenKind, TokenModel};
use crate::label_tree;
use crate::label_tree::LabelTree;
use packed_term_arena::tree::{Tree, TreeArena};
use vstd::prelude::*;

verus! {

/// What a node of an elementary tree stands for.
#[derive(Clone, Copy, PartialEq, Eq, Structural, Debug)]
pub enum NodeType {
    Default,
    Substitution,
    Foot,
    Head,
}

/// A node of an elementary tree.
#[derive(Debug)]
pub struct TagNode {
    pub label: String,
    pub node_type: NodeType,
    pub no_adjunction: bool,
    pub top: Option<FeatureMap>,
    pub bottom: Option<FeatureMap>,
}

/// What a node of an elementary tree says.
pub struct NodeModel {
    pub label: Seq<char>,
    pub node_type: NodeType,
    pub no_adjunction: bool,
    pub top: Option<Features>,
    pub bottom: Option<Features>,
}

/// What an optional feature map says.
pub open spec fn optional_features(f: Option<FeatureMap>) -> Option<Features> {
    match f {
        Some(m) => Some(m@),
        None => None,
    }
}

impl View for TagNode {
    type V = NodeModel;

    open spec fn view(&self) -> NodeModel {
        NodeModel {
            label: self.label@,
            node_type: self.node_type,
            no_adjunction: self.no_adjunction,
            top: optional_features(self.top),
            bottom: optional_features(self.bottom),
        }
    }
}

/// An elementary tree.
pub type TagTree = LabelTree<NodeModel>;

/// The nodes of an arena as they read.
pub open spec fn node_models(nodes: Seq<(TagNode, Seq<nat>)>) -> Seq<(NodeModel, Seq<nat>)> {
    Seq::new(nodes.len(), |i: int| (nodes[i].0@, nodes[i].1))
}

/// The nodes that an arena of elementary trees holds, as they read.
pub open spec fn arena_models(a: TreeArena<TagNode>) -> Seq<(NodeModel, Seq<nat>)> {
    node_models(arena::tag_nodes(a))
}

/// An elementary tree in its arena.
pub struct ElementaryTree {
    pub arena: TreeArena<TagNode>,
    pub root: Tree,
}

impl ElementaryTree {
    /// Whether the root is a node of the arena, children come first, and the nodes
    /// can be counted.
    pub open spec fn wf(&self) -> bool {
        &&& arena::children_first(arena_models(self.arena))
        &&& arena::tree_number(self.root) < arena_models(self.arena).len()
        &&& label_tree::size(self@) < usize::MAX
    }
}

impl View for ElementaryTree {
    type V = TagTree;

    open spec fn view(&self) -> TagTree {
        label_tree::tree_at(arena_models(self.arena), arena::tree_number(self.root))
    }
}

/// The elementary tree or the tree family that a word goes with.
#[derive(Debug)]
pub enum TreeRef {
    Tree(String),
    Family(String),
}

/// What a reference to trees says.
pub enum RefModel {
    Tree(Seq<char>),
    Family(Seq<char>),
}

impl View for TreeRef {
    type V = RefModel;

    open spec fn view(&self) -> RefModel {
        match self {
            TreeRef::Tree(s) => RefModel::Tree(s@),
            TreeRef::Family(s) => RefModel::Family(s@),
        }
    }
}

/// An elementary tree with its name.
pub struct TreeDecl {
    pub name: String,
    pub tree: ElementaryTree,
}

impl View for TreeDecl {
    type V = (Seq<char>, TagTree);

    open spec fn view(&self) -> (Seq<char>, TagTree) {
        (self.name@, self.tree@)
    }
}

/// A family of elementary trees.
#[derive(Debug)]
pub struct FamilyDecl {
    pub name: String,
    pub members: Vec<String>,
}

impl View for FamilyDecl {
    type V = (Seq<char>, Seq<Seq<char>>);

    open spec fn view(&self) -> (Seq<char>, Seq<Seq<char>>) {
        (self.name@, crate::text::texts(self.members@))
    }
}

/// A word, the trees it goes with and its features.
#[derive(Debug)]
pub struct WordDecl {
    pub word: String,
    pub target: TreeRef,
    pub features: FeatureMap,
}

/// What the declaration of a word says.
pub struct WordModel {
    pub word: Seq<char>,
    pub target: RefModel,
    pub features: Features,
}

impl View for WordDecl {
    type V = WordModel;

    open spec fn view(&self) -> WordModel {
        WordModel { word: self.word@, target: self.target@, features: self.features@ }
    }
}

/// A word form of a lemma.
#[derive(Debug)]
pub struct WordForm {
    pub word: String,
    pub features: FeatureMap,
}

impl View for WordForm {
    type V = (Seq<char>, Features);

    open spec fn view(&self) -> (Seq<char>, Features) {
        (self.word@, self.features@)
    }
}

/// What word forms say.
pub open spec fn form_views(forms: Seq<WordForm>) -> Seq<(Seq<char>, Features)> {
    Seq::new(forms.len(), |i: int| forms[i]@)
}

/// A lemma: trees and features that several word forms share.
#[derive(Debug)]
pub struct LemmaDecl {
    pub lemma: String,
    pub target: TreeRef,
    pub features: FeatureMap,
    pub words: Vec<WordForm>,
}

/// What the declaration of a lemma says.
pub struct LemmaModel {
    pub lemma: Seq<char>,
    pub target: RefModel,
    pub features: Features,
    pub words: Seq<(Seq<char>, Features)>,
}

impl View for LemmaDecl {
    type V = LemmaModel;

    open spec fn view(&self) -> LemmaModel {
        LemmaModel {
            lemma: self.lemma@,
            target: self.target@,
            features: self.features@,
            words: form_views(self.words@),
        }
    }
}

/// All declarations of a grammar, in the order in which they stand.
pub struct Declarations {
    pub trees: Vec<TreeDecl>,
    pub families: Vec<FamilyDecl>,
    pub words: Vec<WordDecl>,
    pub lemmas: Vec<LemmaDecl>,
    pub includes: Vec<String>,
}

/// What the declarations of a grammar say.
pub struct DeclModel {
    pub trees: Seq<(Seq<char>, TagTree)>,
    pub families: Seq<(Seq<char>, Seq<Seq<char>>)>,
    pub words: Seq<WordModel>,
    pub lemmas: Seq<LemmaModel>,
    pub includes: Seq<Seq<char>>,
}

pub open spec fn tree_views(list: Seq<TreeDecl>) -> Seq<(Seq<char>, TagTree)> {
    Seq::new(list.len(), |i: int| list[i]@)
}

pub open spec fn family_views(list: Seq<FamilyDecl>) -> Seq<(Seq<char>, Seq<Seq<char>>)> {
    Seq::new(list.len(), |i: int| list[i]@)
}

pub open spec fn word_views(list: Seq<WordDecl>) -> Seq<WordModel> {
    Seq::new(list.len(), |i: int| list[i]@)
}

pub open spec fn lemma_views(list: Seq<LemmaDecl>) -> Seq<LemmaModel> {
    Seq::new(list.len(), |i: int| list[i]@)
}

impl View for Declarations {
    type V = DeclModel;

    open spec fn view(&self) -> DeclModel {
        DeclModel {
            trees: tree_views(self.trees@),
            families: family_views(self.families@),
            words: word_views(self.words@),
            lemmas: lemma_views(self.lemmas@),
            includes: crate::text::texts(self.includes@),
        }
    }
}

/// No declarations.
pub open spec fn no_declarations() -> DeclModel {
    DeclModel {
        trees: Seq::empty(),
        families: Seq::empty(),
        words: Seq::empty(),
        lemmas: Seq::empty(),
        includes: Seq::empty(),
    }
}

/// Declarations followed by others.
pub open spec fn both(a: DeclModel, b: DeclModel) -> DeclModel {
    DeclModel {
        trees: a.trees + b.trees,
        families: a.families + b.families,
        words: a.words + b.words,
        lemmas: a.lemmas + b.lemmas,
        includes: a.includes + b.includes,
    }
}

impl Declarations {
    /// Whether every elementary tree is one.
    pub open spec fn wf(&self) -> bool {
        forall|i: int| 0 <= i < self.trees@.len() ==> (#[trigger] self.trees@[i]).tree.wf()
    }

    /// No declarations.
    pub fn new() -> (d: Self)
        ensures
            d.wf(),
            d@ == no_declarations(),
    {
        let d = Declarations {
            trees: Vec::new(),
            families: Vec::new(),
            words: Vec::new(),
            lemmas: Vec::new(),
            includes: Vec::new(),
        };
        proof {
            assert(tree_views(d.trees@) =~= Seq::empty());
            assert(family_views(d.families@) =~= Seq::empty());
            assert(word_views(d.words@) =~= Seq::empty());
            assert(lemma_views(d.lemmas@) =~= Seq::empty());
            assert(crate::text::texts(d.includes@) =~= Seq::empty());
        }
        d
    }

    /// Adds further declarations after these.
    pub fn extend(&mut self, other: Self)
        requires
            old(self).wf(),
            other.wf(),
        ensures
            final(self).wf(),
            final(self)@ == both(old(self)@, other@),
    {
        let ghost a = *self;
        let ghost b = other;
        let Declarations { mut trees, mut families, mut words, mut lemmas, mut includes } = other;
        self.trees.append(&mut trees);
        self.families.append(&mut families);
        self.words.append(&mut words);
        self.lemmas.append(&mut lemmas);
        self.includes.append(&mut includes);
        proof {
            assert(tree_views(self.trees@) =~= tree_views(a.trees@) + tree_views(b.trees@));
            assert(family_views(self.families@) =~= family_views(a.families@) + family_views(
                b.families@,
            ));
            assert(word_views(self.words@) =~= word_views(a.words@) + word_views(b.words@));
            assert(lemma_views(self.lemmas@) =~= lemma_views(a.lemmas@) + lemma_views(b.lemmas@));
            assert(crate::text::texts(self.includes@) =~= crate::text::texts(a.includes@)
                + crate::text::texts(b.includes@));
            assert forall|i: int| 0 <= i < self.trees@.len() implies (
            #[trigger] self.trees@[i]).tree.wf() by {
                if i < a.trees@.len() {
                    assert(self.trees@[i] == a.trees@[i]);
                } else {
                    assert(self.trees@[i] == b.trees@[i - a.trees@.len()]);
                }
            }
        }
    }
}

/// Why tokens do not form declarations.
#[derive(Debug)]
pub enum ParseErrorKind {
    ExpectedDeclaration,
    UnterminatedChildren,
    EmptyLemma,
    ExpectedFeatureValue,
    ExpectedTreeName,
    ExpectedIdentifier,
    Expected {
        wanted: TokenKind,
        found: Option<TokenKind>,
    },
}

/// What is wrong with tokens.
pub enum ParseFault {
    ExpectedDeclaration,
    UnterminatedChildren,
    EmptyLemma,
    ExpectedFeatureValue,
    ExpectedTreeName,
    ExpectedIdentifier,
    Expected {
        wanted: TokenModel,
        found: Option<TokenModel>,
    },
}

impl View for ParseErrorKind {
    type V = ParseFault;

    open spec fn view(&self) -> ParseFault {
        match self {
            ParseErrorKind::ExpectedDeclaration => ParseFault::ExpectedDeclaration,
            ParseErrorKind::UnterminatedChildren => ParseFault::UnterminatedChildren,
            ParseErrorKind::EmptyLemma => ParseFault::EmptyLemma,
            ParseErrorKind::ExpectedFeatureValue => ParseFault::ExpectedFeatureValue,
            ParseErrorKind::ExpectedTreeName => ParseFault::ExpectedTreeName,
            ParseErrorKind::ExpectedIdentifier => ParseFault::ExpectedIdentifier,
            ParseErrorKind::Expected { wanted, found } => ParseFault::Expected {
                wanted: wanted@,
                found: match found {
                    Some(t) => Some(t@),
                    None => None,
                },
            },
        }
    }
}

/// Why tokens do not form declarations, and at which byte.
#[derive(Debug)]
pub struct ParseError {
    pub offset: usize,
    pub kind: ParseErrorKind,
}

/// A fault and its place.
pub type FaultAt = (usize, ParseFault);

impl View for ParseError {
    type V = FaultAt;

    open spec fn view(&self) -> FaultAt {
        (self.offset, self.kind@)
    }
}

} // verus!
