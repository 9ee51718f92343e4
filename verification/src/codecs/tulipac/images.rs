//! The images of a lexicalized elementary tree.
use crate::alto_ast;
use crate::alto_ast::{binary, decimal_text, leaf, symbol, AstHomTerm, HomAst};
use crate::arena;
use crate::arena::{tag_children, tag_label};
use crate::codecs::tulipac::features::{AtomModel, FeatureClash};
use crate::codecs::tulipac::syntax;
use crate::codecs::tulipac::syntax::{NodeModel, NodeType, TagNode, TagTree};
use crate::label_tree;
use crate::text;
use crate::text::{chars_of, is_text, joined};
use packed_term_arena::tree::{Tree, TreeArena};
use vstd::prelude::*;
use vstd::string::StringExecFns;

verus! {

/// Why an elementary tree has no image.
#[derive(Debug)]
pub enum ImageError {
    /// A variable that no child stands for.
    InvalidVariable(usize),
    /// The sorts of two strings that cannot be wrapped.
    WrapSorts(u8, u8),
    /// The sorts of two strings that cannot be put together.
    ConcatSorts(u8, u8),
    /// Two values of one feature exclude each other.
    Clash(FeatureClash),
    /// The root is a foot or substitution node.
    RootNotOrdinary,
}

/// What keeps an elementary tree from having an image.
pub enum ImageFault {
    InvalidVariable(usize),
    WrapSorts(u8, u8),
    ConcatSorts(u8, u8),
    Clash((Seq<char>, AtomModel, AtomModel)),
    RootNotOrdinary,
}

impl View for ImageError {
    type V = ImageFault;

    open spec fn view(&self) -> ImageFault {
        match self {
            ImageError::InvalidVariable(v) => ImageFault::InvalidVariable(*v),
            ImageError::WrapSorts(a, b) => ImageFault::WrapSorts(*a, *b),
            ImageError::ConcatSorts(a, b) => ImageFault::ConcatSorts(*a, *b),
            ImageError::Clash(c) => ImageFault::Clash(c@),
            ImageError::RootNotOrdinary => ImageFault::RootNotOrdinary,
        }
    }
}

/// The state for trees substituted at nodes with a label.
pub open spec fn substitution_state(label: Seq<char>) -> Seq<char> {
    label + "_S"@
}

/// The state for trees adjoined at nodes with a label.
pub open spec fn adjunction_state(label: Seq<char>) -> Seq<char> {
    label + "_A"@
}

/// A node whose label carries the number of its children, with a variable for what
/// is adjoined there unless adjunction is forbidden.
pub open spec fn ordinary(n: NodeModel, children: Seq<HomAst>, states: Seq<Seq<char>>) -> (
    HomAst,
    Seq<Seq<char>>,
) {
    let node = HomAst::Symbol(n.label + "_"@ + alto_ast::decimal(children.len()), children);
    if n.no_adjunction {
        (node, states)
    } else {
        let now = states.push(adjunction_state(n.label));
        (HomAst::Symbol("@"@, seq![HomAst::Variable(now.len() as usize), node]), now)
    }
}

/// The tree image of an elementary tree around a word, and the states of its
/// variables after the given ones.
pub open spec fn tree_image(t: TagTree, word: Seq<char>, states: Seq<Seq<char>>) -> (
    HomAst,
    Seq<Seq<char>>,
)
    decreases t,
{
    let (children, now) = tree_images(t.children, word, states);
    match t.label.node_type {
        NodeType::Head => ordinary(t.label, seq![HomAst::Symbol(word, Seq::empty())], now),
        NodeType::Foot => (HomAst::Symbol("*"@, Seq::empty()), now),
        NodeType::Substitution => {
            let more = now.push(substitution_state(t.label.label));
            (HomAst::Variable(more.len() as usize), more)
        },
        NodeType::Default => ordinary(t.label, children, now),
    }
}

/// The tree images of trees from left to right.
pub open spec fn tree_images(ts: Seq<TagTree>, word: Seq<char>, states: Seq<Seq<char>>) -> (
    Seq<HomAst>,
    Seq<Seq<char>>,
)
    decreases ts,
{
    if ts.len() == 0 {
        (Seq::empty(), states)
    } else {
        let (front, now) = tree_images(ts.drop_last(), word, states);
        let (last, more) = tree_image(ts.last(), word, now);
        (front.push(last), more)
    }
}

/// Whether something may be adjoined at a node.
pub open spec fn adjoins(n: NodeModel) -> bool {
    (n.node_type == NodeType::Default || n.node_type == NodeType::Head) && !n.no_adjunction
}

/// The adjunction states of a tree, children before parents.
pub open spec fn adjunctions(t: TagTree) -> Seq<Seq<char>>
    decreases t,
{
    let below = adjunctions_in(t.children);
    if adjoins(t.label) {
        below.push(adjunction_state(t.label.label))
    } else {
        below
    }
}

/// The adjunction states of trees from left to right.
pub open spec fn adjunctions_in(ts: Seq<TagTree>) -> Seq<Seq<char>>
    decreases ts,
{
    if ts.len() == 0 {
        Seq::empty()
    } else {
        adjunctions_in(ts.drop_last()) + adjunctions(ts.last())
    }
}

fn ordinary_or_adjunction(
    node: &TagNode,
    children: Vec<AstHomTerm>,
    child_states: &mut Vec<String>,
    adjoined: &mut Vec<String>,
) -> (t: AstHomTerm)
    ensures
        (t@, text::texts(final(child_states)@)) == ordinary(
            node@,
            alto_ast::hom_asts(children@),
            text::texts(old(child_states)@),
        ),
        text::texts(final(adjoined)@) == (if node.no_adjunction {
            text::texts(old(adjoined)@)
        } else {
            text::texts(old(adjoined)@).push(adjunction_state(node.label@))
        }),
{
    let ghost states = text::texts(child_states@);
    let ghost known = text::texts(adjoined@);
    let count = decimal_text(children.len());
    let mut label = joined(node.label.as_str(), "_");
    label.append(count.as_str());
    let ghost kids = alto_ast::hom_asts(children@);
    let plain = symbol(label, children);
    if node.no_adjunction {
        return plain;
    }
    let state = joined(node.label.as_str(), "_A");
    child_states.push(state.clone());
    adjoined.push(state);
    assert(text::texts(child_states@) =~= states.push(adjunction_state(node.label@)));
    assert(text::texts(adjoined@) =~= known.push(adjunction_state(node.label@)));
    binary("@".to_owned(), AstHomTerm::Variable(child_states.len()), plain)
}

/// Builds the tree image of an elementary tree around a word. The states of its
/// variables and the states at which something may be adjoined are appended.
pub fn tree_term(
    nodes: &TreeArena<TagNode>,
    node: Tree,
    word: &String,
    child_states: &mut Vec<String>,
    adjoined: &mut Vec<String>,
) -> (t: AstHomTerm)
    requires
        arena::children_first(syntax::arena_models(*nodes)),
        arena::tree_number(node) < syntax::arena_models(*nodes).len(),
    ensures
        (t@, text::texts(final(child_states)@)) == tree_image(
            label_tree::tree_at(syntax::arena_models(*nodes), arena::tree_number(node)),
            word@,
            text::texts(old(child_states)@),
        ),
        text::texts(final(adjoined)@) == text::texts(old(adjoined)@) + adjunctions(
            label_tree::tree_at(syntax::arena_models(*nodes), arena::tree_number(node)),
        ),
    decreases arena::tree_number(node),
{
    let ghost models = syntax::arena_models(*nodes);
    let ghost number = arena::tree_number(node);
    let ghost tree = label_tree::tree_at(models, number);
    let ghost start = text::texts(child_states@);
    let ghost known = text::texts(adjoined@);
    proof {
        label_tree::lemma_tree_children(models, number);
    }
    let data = tag_label(nodes, node);
    let parts = tag_children(nodes, node);
    let ghost numbers = models[number as int].1;
    assert(data@ == tree.label);
    let mut children: Vec<AstHomTerm> = Vec::new();
    let mut c: usize = 0;
    proof {
        assert(tree.children.take(0) =~= Seq::empty());
        assert(alto_ast::hom_asts(children@) =~= Seq::empty());
        assert(known + adjunctions_in(tree.children.take(0)) =~= known);
    }
    while c < parts.len()
        invariant
            c <= parts@.len(),
            models == syntax::arena_models(*nodes),
            arena::children_first(models),
            number == arena::tree_number(node),
            number < models.len(),
            numbers == models[number as int].1,
            arena::tree_numbers(parts@) == numbers,
            tree == label_tree::tree_at(models, number),
            tree.children == label_tree::trees_at(models, numbers),
            forall|d: int| 0 <= d < numbers.len() ==> #[trigger] numbers[d] < number,
            (alto_ast::hom_asts(children@), text::texts(child_states@)) == tree_images(
                tree.children.take(c as int),
                word@,
                start,
            ),
            text::texts(adjoined@) == known + adjunctions_in(tree.children.take(c as int)),
        decreases parts@.len() - c,
    {
        let ghost done = alto_ast::hom_asts(children@);
        assert(arena::tree_numbers(parts@)[c as int] == arena::tree_number(parts@[c as int]));
        assert(numbers[c as int] < number);
        let child = tree_term(nodes, parts[c], word, child_states, adjoined);
        let ghost one = child@;
        children.push(child);
        proof {
            let now = tree.children.take(c + 1);
            assert(now.drop_last() =~= tree.children.take(c as int));
            assert(now.last() == tree.children[c as int]);
            assert(alto_ast::hom_asts(children@) =~= done.push(one));
            assert(text::texts(adjoined@) =~= known + adjunctions_in(now));
        }
        c += 1;
    }
    assert(tree.children.take(c as int) =~= tree.children);
    let ghost later = text::texts(adjoined@);
    let ghost states = text::texts(child_states@);
    let t = match data.node_type {
        NodeType::Head => {
            let mut only: Vec<AstHomTerm> = Vec::new();
            only.push(leaf(word.clone()));
            assert(alto_ast::hom_asts(only@) =~= seq![HomAst::Symbol(word@, Seq::empty())]);
            ordinary_or_adjunction(data, only, child_states, adjoined)
        },
        NodeType::Foot => leaf("*".to_owned()),
        NodeType::Substitution => {
            child_states.push(joined(data.label.as_str(), "_S"));
            assert(text::texts(child_states@) =~= states.push(substitution_state(data.label@)));
            AstHomTerm::Variable(child_states.len())
        },
        NodeType::Default => ordinary_or_adjunction(data, children, child_states, adjoined),
    };
    proof {
        let below = adjunctions_in(tree.children);
        assert(text::texts(adjoined@) =~= known + adjunctions(tree));
    }
    t
}

/// Whether every substitution node has what is put in and where.
pub open spec fn wrappable(t: HomAst) -> bool
    decreases t,
{
    match t {
        HomAst::Symbol(label, children) => {
            &&& label == "@"@ ==> children.len() >= 2
            &&& forall|i: int| 0 <= i < children.len() ==> wrappable(#[trigger] children[i])
        },
        HomAst::Variable(v) => true,
    }
}

/// Whether a tree has a head node.
pub open spec fn has_head(t: TagTree) -> bool
    decreases t,
{
    t.label.node_type == NodeType::Head || exists|i: int|
        0 <= i < t.children.len() && has_head(#[trigger] t.children[i])
}

proof fn lemma_ordinary_wrappable(n: NodeModel, children: Seq<HomAst>, states: Seq<Seq<char>>)
    requires
        forall|i: int| 0 <= i < children.len() ==> wrappable(#[trigger] children[i]),
    ensures
        wrappable(ordinary(n, children, states).0),
{
    reveal_strlit("@");
    reveal_strlit("_");
    let label = n.label + "_"@ + alto_ast::decimal(children.len());
    lemma_decimal_nonempty(children.len());
    assert(label[n.label.len() as int] == '_');
    assert(label.len() >= 2);
    assert("@"@.len() == 1);
    let node = HomAst::Symbol(label, children);
    assert(wrappable(node));
    if !n.no_adjunction {
        let now = states.push(adjunction_state(n.label));
        let v = HomAst::Variable(now.len() as usize);
        assert(wrappable(v));
        let both = seq![v, node];
        let t = HomAst::Symbol("@"@, both);
        assert forall|i: int| 0 <= i < both.len() implies wrappable(#[trigger] both[i]) by {}
        assert(t->Symbol_1 == both);
        assert(wrappable(t));
    }
}

proof fn lemma_decimal_nonempty(n: nat)
    ensures
        alto_ast::decimal(n).len() > 0,
    decreases n,
{
}

/// The tree image of an elementary tree around an ordinary word can be turned into
/// a string.
pub proof fn lemma_tree_image_wrappable(t: TagTree, word: Seq<char>, states: Seq<Seq<char>>)
    requires
        word == "@"@ ==> !has_head(t),
    ensures
        wrappable(tree_image(t, word, states).0),
    decreases t,
{
    lemma_tree_images_wrappable_in(t, word, states);
    let (children, now) = tree_images(t.children, word, states);
    match t.label.node_type {
        NodeType::Head => {
            let w = HomAst::Symbol(word, Seq::empty());
            assert(wrappable(w));
            let only = seq![w];
            assert forall|i: int| 0 <= i < only.len() implies wrappable(#[trigger] only[i]) by {}
            lemma_ordinary_wrappable(t.label, only, now);
        },
        NodeType::Foot => {
            reveal_strlit("@");
            reveal_strlit("*");
            assert("@"@[0] != "*"@[0]);
        },
        NodeType::Substitution => {},
        NodeType::Default => {
            lemma_ordinary_wrappable(t.label, children, now);
        },
    }
}

proof fn lemma_tree_images_wrappable_in(t: TagTree, word: Seq<char>, states: Seq<Seq<char>>)
    requires
        word == "@"@ ==> !has_head(t),
    ensures
        forall|i: int|
            0 <= i < tree_images(t.children, word, states).0.len() ==> wrappable(
                #[trigger] tree_images(t.children, word, states).0[i],
            ),
    decreases t, 0int,
{
    assert forall|i: int| 0 <= i < t.children.len() && word == "@"@ implies !has_head(
        #[trigger] t.children[i],
    ) by {}
    lemma_tree_images_wrappable(t.children, word, states);
}

proof fn lemma_tree_images_wrappable(ts: Seq<TagTree>, word: Seq<char>, states: Seq<Seq<char>>)
    requires
        forall|i: int| 0 <= i < ts.len() && word == "@"@ ==> !has_head(#[trigger] ts[i]),
    ensures
        forall|i: int|
            0 <= i < tree_images(ts, word, states).0.len() ==> wrappable(
                #[trigger] tree_images(ts, word, states).0[i],
            ),
    decreases ts, 1int,
{
    if ts.len() > 0 {
        let front = ts.drop_last();
        assert forall|i: int| 0 <= i < front.len() && word == "@"@ implies !has_head(
            #[trigger] front[i],
        ) by {
            assert(front[i] == ts[i]);
        }
        lemma_tree_images_wrappable(front, word, states);
        let now = tree_images(front, word, states).1;
        assert(ts.last() == ts[ts.len() - 1]);
        lemma_tree_image_wrappable(ts.last(), word, now);
    }
}

/// Whether the state is one for substituted trees.
pub open spec fn substitutes(state: Seq<char>) -> bool {
    state.len() >= 2 && state[state.len() - 2] == '_' && state[state.len() - 1] == 'S'
}

pub fn is_substitution(state: &String) -> (b: bool)
    ensures
        b == substitutes(state@),
{
    let c = chars_of(state.as_str());
    let n: usize = c.len();
    n >= 2 && c[n - 2] == '_' && c[n - 1] == 'S'
}

/// Two strings put together: only one of them may have a gap.
pub open spec fn concatenated(left: (HomAst, u8), right: (HomAst, u8)) -> Result<
    (HomAst, u8),
    ImageFault,
> {
    let parts = seq![left.0, right.0];
    if left.1 == 1 && right.1 == 1 {
        Ok((HomAst::Symbol("*CONC11*"@, parts), 1))
    } else if left.1 == 1 && right.1 == 2 {
        Ok((HomAst::Symbol("*CONC12*"@, parts), 2))
    } else if left.1 == 2 && right.1 == 1 {
        Ok((HomAst::Symbol("*CONC21*"@, parts), 2))
    } else {
        Err(ImageFault::ConcatSorts(left.1, right.1))
    }
}

/// Several strings put together, the last two first.
pub open spec fn concatenation(list: Seq<(HomAst, u8)>) -> Result<(HomAst, u8), ImageFault>
    decreases list.len(),
{
    if list.len() <= 1 {
        Ok(list[0])
    } else {
        match concatenation(list.skip(1)) {
            Ok(right) => concatenated(list[0], right),
            Err(e) => Err(e),
        }
    }
}

/// The terms of strings with sorts.
pub open spec fn terms_of(list: Seq<(HomAst, u8)>) -> Seq<HomAst> {
    Seq::new(list.len(), |i: int| list[i].0)
}

/// A string with a gap wrapped around another string.
pub open spec fn wrapped(list: Seq<(HomAst, u8)>) -> Result<(HomAst, u8), ImageFault> {
    if list[0].1 == 2 && list[1].1 == 1 {
        Ok((HomAst::Symbol("*WRAP21*"@, terms_of(list)), 1))
    } else if list[0].1 == 2 && list[1].1 == 2 {
        Ok((HomAst::Symbol("*WRAP22*"@, terms_of(list)), 2))
    } else {
        Err(ImageFault::WrapSorts(list[0].1, list[1].1))
    }
}

/// The string image that belongs to a tree image, with its sort: one for a string,
/// two for a string with a gap.
pub open spec fn string_image(t: HomAst, states: Seq<Seq<char>>) -> Result<
    (HomAst, u8),
    ImageFault,
>
    decreases t,
{
    match t {
        HomAst::Variable(v) => if 1 <= v <= states.len() {
            Ok(
                (
                    t,
                    if substitutes(states[v - 1]) {
                        1
                    } else {
                        2
                    },
                ),
            )
        } else {
            Err(ImageFault::InvalidVariable(v))
        },
        HomAst::Symbol(label, children) => if label == "*"@ {
            Ok((HomAst::Symbol("*EE*"@, Seq::empty()), 2))
        } else {
            match string_images(children, states) {
                Ok(list) => if label == "@"@ {
                    wrapped(list)
                } else if list.len() == 0 {
                    Ok((HomAst::Symbol(label, Seq::empty()), 1))
                } else {
                    concatenation(list)
                },
                Err(e) => Err(e),
            }
        },
    }
}

/// The string images of trees; the leftmost failure counts.
pub open spec fn string_images(ts: Seq<HomAst>, states: Seq<Seq<char>>) -> Result<
    Seq<(HomAst, u8)>,
    ImageFault,
>
    decreases ts,
{
    if ts.len() == 0 {
        Ok(Seq::empty())
    } else {
        match string_images(ts.drop_last(), states) {
            Ok(front) => match string_image(ts.last(), states) {
                Ok(last) => Ok(front.push(last)),
                Err(e) => Err(e),
            },
            Err(e) => Err(e),
        }
    }
}

proof fn lemma_string_images(ts: Seq<HomAst>, states: Seq<Seq<char>>, k: int)
    requires
        0 <= k <= ts.len(),
    ensures
        string_images(ts.take(k), states) is Err ==> string_images(ts, states) == string_images(
            ts.take(k),
            states,
        ),
        string_images(ts, states) matches Ok(list) ==> list.len() == ts.len(),
    decreases ts.len(),
{
    if k < ts.len() {
        assert(ts.drop_last().take(k) =~= ts.take(k));
        lemma_string_images(ts.drop_last(), states, k);
    } else {
        assert(ts.take(k) =~= ts);
        if ts.len() > 0 {
            lemma_string_images(ts.drop_last(), states, k - 1);
        }
    }
}

/// A term and its sort.
struct SortedTerm {
    term: AstHomTerm,
    sort: u8,
}

spec fn sorted_views(list: Seq<SortedTerm>) -> Seq<(HomAst, u8)> {
    Seq::new(list.len(), |i: int| (list[i].term@, list[i].sort))
}

fn concatenate(list: Vec<SortedTerm>) -> (r: Result<SortedTerm, ImageError>)
    requires
        list@.len() >= 1,
    ensures
        match r {
            Ok(s) => concatenation(sorted_views(list@)) == Ok::<(HomAst, u8), ImageFault>(
                (s.term@, s.sort),
            ),
            Err(e) => concatenation(sorted_views(list@)) == Err::<(HomAst, u8), ImageFault>(e@),
        },
    decreases list@.len(),
{
    let ghost all = sorted_views(list@);
    let mut rest = list;
    let left = rest.remove(0);
    if rest.len() == 0 {
        return Ok(left);
    }
    assert(sorted_views(rest@) =~= all.skip(1));
    let right = concatenate(rest)?;
    if left.sort == 1 && right.sort == 1 {
        Ok(SortedTerm { term: binary("*CONC11*".to_owned(), left.term, right.term), sort: 1 })
    } else if left.sort == 1 && right.sort == 2 {
        Ok(SortedTerm { term: binary("*CONC12*".to_owned(), left.term, right.term), sort: 2 })
    } else if left.sort == 2 && right.sort == 1 {
        Ok(SortedTerm { term: binary("*CONC21*".to_owned(), left.term, right.term), sort: 2 })
    } else {
        Err(ImageError::ConcatSorts(left.sort, right.sort))
    }
}

fn wrap(list: Vec<SortedTerm>) -> (r: Result<SortedTerm, ImageError>)
    requires
        list@.len() >= 2,
    ensures
        match r {
            Ok(s) => wrapped(sorted_views(list@)) == Ok::<(HomAst, u8), ImageFault>(
                (s.term@, s.sort),
            ),
            Err(e) => wrapped(sorted_views(list@)) == Err::<(HomAst, u8), ImageFault>(e@),
        },
{
    let ghost all = sorted_views(list@);
    let outer: u8 = list[0].sort;
    let inner: u8 = list[1].sort;
    if outer != 2 || (inner != 1 && inner != 2) {
        return Err(ImageError::WrapSorts(outer, inner));
    }
    let mut rest = list;
    let mut parts: Vec<AstHomTerm> = Vec::new();
    proof {
        assert(alto_ast::hom_asts(parts@) =~= terms_of(all).take(0));
    }
    while rest.len() > 0
        invariant
            rest@.len() <= all.len(),
            sorted_views(rest@) == all.skip(all.len() - rest@.len()),
            alto_ast::hom_asts(parts@) == terms_of(all).take(all.len() - rest@.len()),
        decreases rest@.len(),
    {
        let ghost before = rest@;
        let ghost done = alto_ast::hom_asts(parts@);
        let first = rest.remove(0);
        let ghost k = all.len() - before.len();
        proof {
            assert(sorted_views(before)[0] == all[k]);
            assert forall|i: int| 0 <= i < rest@.len() implies sorted_views(rest@)[i] == all.skip(
                k + 1,
            )[i] by {
                assert(rest@[i] == before[i + 1]);
                assert(sorted_views(before)[i + 1] == all.skip(k)[i + 1]);
            }
            assert(sorted_views(rest@) =~= all.skip(k + 1));
        }
        let ghost one = first.term@;
        parts.push(first.term);
        proof {
            assert(one == terms_of(all)[k]);
            assert(alto_ast::hom_asts(parts@) =~= done.push(one));
            assert(terms_of(all).take(k + 1) =~= terms_of(all).take(k).push(terms_of(all)[k]));
        }
    }
    assert(terms_of(all).take(all.len() as int) =~= terms_of(all));
    if inner == 1 {
        Ok(SortedTerm { term: symbol("*WRAP21*".to_owned(), parts), sort: 1 })
    } else {
        Ok(SortedTerm { term: symbol("*WRAP22*".to_owned(), parts), sort: 2 })
    }
}

fn convert_string(t: &AstHomTerm, child_states: &Vec<String>) -> (r: Result<
    SortedTerm,
    ImageError,
>)
    requires
        wrappable(t@),
    ensures
        match r {
            Ok(s) => string_image(t@, text::texts(child_states@)) == Ok::<
                (HomAst, u8),
                ImageFault,
            >((s.term@, s.sort)),
            Err(e) => string_image(t@, text::texts(child_states@)) == Err::<
                (HomAst, u8),
                ImageFault,
            >(e@),
        },
    decreases t,
{
    let ghost states = text::texts(child_states@);
    match t {
        AstHomTerm::Variable(v) => {
            let variable: usize = *v;
            if variable >= 1 && variable <= child_states.len() {
                assert(states[variable - 1] == child_states@[variable - 1]@);
                let sort: u8 = if is_substitution(&child_states[variable - 1]) {
                    1
                } else {
                    2
                };
                Ok(SortedTerm { term: AstHomTerm::Variable(variable), sort })
            } else {
                Err(ImageError::InvalidVariable(variable))
            }
        },
        AstHomTerm::Symbol(label, children) => {
            let ghost kids = alto_ast::hom_asts(children@);
            proof {
                alto_ast::lemma_hom_symbol(*label, *children);
            }
            if is_text(label, "*") {
                return Ok(SortedTerm { term: leaf("*EE*".to_owned()), sort: 2 });
            }
            let mut converted: Vec<SortedTerm> = Vec::new();
            let mut i: usize = 0;
            assert(kids.take(0) =~= Seq::empty());
            assert(sorted_views(converted@) =~= Seq::empty());
            while i < children.len()
                invariant
                    i <= children@.len(),
                    kids == alto_ast::hom_asts(children@),
                    t@ == HomAst::Symbol(label@, kids),
                    *t == AstHomTerm::Symbol(*label, *children),
                    wrappable(t@),
                    label@ != "*"@,
                    states == text::texts(child_states@),
                    string_images(kids.take(i as int), states) == Ok::<
                        Seq<(HomAst, u8)>,
                        ImageFault,
                    >(sorted_views(converted@)),
                decreases children@.len() - i,
            {
                let ghost done = sorted_views(converted@);
                proof {
                    let now = kids.take(i + 1);
                    assert(now.drop_last() =~= kids.take(i as int));
                    assert(now.last() == children@[i as int]@);
                    assert(wrappable(kids[i as int]));
                    assert(decreases_to!(t => *children));
                    assert(decreases_to!(*children => children@));
                    assert(decreases_to!(children@ => children@[i as int]));
                }
                match convert_string(&children[i], child_states) {
                    Ok(s) => {
                        let ghost one = (s.term@, s.sort);
                        converted.push(s);
                        assert(sorted_views(converted@) =~= done.push(one));
                    },
                    Err(e) => {
                        proof {
                            lemma_string_images(kids, states, i + 1);
                        }
                        return Err(e);
                    },
                }
                i += 1;
            }
            assert(kids.take(i as int) =~= kids);
            proof {
                lemma_string_images(kids, states, kids.len() as int);
            }
            if is_text(label, "@") {
                wrap(converted)
            } else if converted.len() == 0 {
                Ok(SortedTerm { term: leaf(label.clone()), sort: 1 })
            } else {
                concatenate(converted)
            }
        },
    }
}

/// Builds the string image that belongs to a tree image.
pub fn string_term(tree_term: &AstHomTerm, child_states: &Vec<String>) -> (r: Result<
    AstHomTerm,
    ImageError,
>)
    requires
        wrappable(tree_term@),
    ensures
        match r {
            Ok(t) => string_image(tree_term@, text::texts(child_states@)) matches Ok((u, sort))
                && u == t@,
            Err(e) => string_image(tree_term@, text::texts(child_states@)) == Err::<
                (HomAst, u8),
                ImageFault,
            >(e@),
        },
{
    let s = convert_string(tree_term, child_states)?;
    Ok(s.term)
}

} // verus!
