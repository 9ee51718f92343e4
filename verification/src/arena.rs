//! Trees stored in the arenas of the `packed-term-arena` crate.
use crate::codecs::tulipac::syntax::TagNode;
use crate::homomorphism::HomLabel;
use crate::ids::Symbol;
use packed_term_arena::parser::parse_tree;
use packed_term_arena::tree::{Tree, TreeArena};
use vstd::prelude::*;

verus! {

/// A handle to a node of an arena.
#[verifier::external_type_specification]
#[verifier::external_body]
pub struct ExTree(Tree);

/// An arena of labelled nodes.
#[verifier::external_type_specification]
#[verifier::external_body]
#[verifier::reject_recursive_types(E)]
pub struct ExTreeArena<E>(TreeArena<E>);

/// The number of the node that a handle names.
pub uninterp spec fn tree_number(t: Tree) -> nat;

/// The nodes of an arena of homomorphism labels: label and child numbers.
pub uninterp spec fn hom_nodes(a: TreeArena<HomLabel>) -> Seq<(HomLabel, Seq<nat>)>;

/// The nodes of an arena of symbols: symbol and child numbers.
pub uninterp spec fn symbol_nodes(a: TreeArena<Symbol>) -> Seq<(Symbol, Seq<nat>)>;

/// The nodes of an arena of elementary trees: node and child numbers.
pub uninterp spec fn tag_nodes(a: TreeArena<TagNode>) -> Seq<(TagNode, Seq<nat>)>;

/// The nodes of an arena of named symbols: name and child numbers.
pub uninterp spec fn text_nodes(a: TreeArena<String>) -> Seq<(Seq<char>, Seq<nat>)>;

/// The tree that a text spells: its nodes and the number of its root, or the message
/// that says why it spells none.
pub uninterp spec fn spelled_tree(text: Seq<char>) -> Result<
    (Seq<(Seq<char>, Seq<nat>)>, nat),
    Seq<char>,
>;

/// The numbers of the nodes that handles name.
pub open spec fn tree_numbers(trees: Seq<Tree>) -> Seq<nat> {
    Seq::new(trees.len(), |i: int| tree_number(trees[i]))
}

/// Whether every child comes before its parent, as it does in an arena that only
/// ever grew.
pub open spec fn children_first<L>(nodes: Seq<(L, Seq<nat>)>) -> bool {
    forall|i: int, c: int|
        0 <= i < nodes.len() && 0 <= c < nodes[i].1.len() ==> #[trigger] nodes[i].1[c] < i
}

/// `TreeArena::get_label`: the label of a node of the arena.
#[verifier::external_body]
pub(crate) fn hom_label(a: &TreeArena<HomLabel>, t: Tree) -> (l: HomLabel)
    requires
        tree_number(t) < hom_nodes(*a).len(),
    ensures
        l == hom_nodes(*a)[tree_number(t) as int].0,
{
    *a.get_label(t)
}

/// `TreeArena::get_children`: the children of a node of the arena, in order.
#[verifier::external_body]
pub(crate) fn hom_children(a: &TreeArena<HomLabel>, t: Tree) -> (c: &[Tree])
    requires
        tree_number(t) < hom_nodes(*a).len(),
    ensures
        tree_numbers(c@) == hom_nodes(*a)[tree_number(t) as int].1,
{
    a.get_children(t)
}

/// `TreeArena::add_node`: appends a node; its handle names the new last node.
#[verifier::external_body]
pub(crate) fn hom_add(a: &mut TreeArena<HomLabel>, l: HomLabel, children: Vec<Tree>) -> (t: Tree)
    ensures
        tree_number(t) == hom_nodes(*old(a)).len(),
        hom_nodes(*final(a)) == hom_nodes(*old(a)).push((l, tree_numbers(children@))),
{
    a.add_node(l, children)
}

/// `TreeArena::new`: an arena without nodes.
#[verifier::external_body]
pub(crate) fn hom_arena() -> (a: TreeArena<HomLabel>)
    ensures
        hom_nodes(a).len() == 0,
{
    TreeArena::new()
}

/// `TreeArena::get_label`: the symbol of a node of the arena.
#[verifier::external_body]
pub(crate) fn symbol_label(a: &TreeArena<Symbol>, t: Tree) -> (f: Symbol)
    requires
        tree_number(t) < symbol_nodes(*a).len(),
    ensures
        f == symbol_nodes(*a)[tree_number(t) as int].0,
{
    *a.get_label(t)
}

/// `TreeArena::get_children`: the children of a node of the arena, in order.
#[verifier::external_body]
pub(crate) fn symbol_children(a: &TreeArena<Symbol>, t: Tree) -> (c: &[Tree])
    requires
        tree_number(t) < symbol_nodes(*a).len(),
    ensures
        tree_numbers(c@) == symbol_nodes(*a)[tree_number(t) as int].1,
{
    a.get_children(t)
}

/// `TreeArena::add_node`: appends a node; its handle names the new last node.
#[verifier::external_body]
pub(crate) fn symbol_add(a: &mut TreeArena<Symbol>, f: Symbol, children: Vec<Tree>) -> (t: Tree)
    ensures
        tree_number(t) == symbol_nodes(*old(a)).len(),
        symbol_nodes(*final(a)) == symbol_nodes(*old(a)).push((f, tree_numbers(children@))),
{
    a.add_node(f, children)
}

/// `TreeArena::get_label`: the node of an elementary tree behind a handle.
#[verifier::external_body]
pub(crate) fn tag_label(a: &TreeArena<TagNode>, t: Tree) -> (n: &TagNode)
    requires
        tree_number(t) < tag_nodes(*a).len(),
    ensures
        *n == tag_nodes(*a)[tree_number(t) as int].0,
{
    a.get_label(t)
}

/// `TreeArena::get_children`: the children of a node of the arena, in order.
#[verifier::external_body]
pub(crate) fn tag_children(a: &TreeArena<TagNode>, t: Tree) -> (c: &[Tree])
    requires
        tree_number(t) < tag_nodes(*a).len(),
    ensures
        tree_numbers(c@) == tag_nodes(*a)[tree_number(t) as int].1,
{
    a.get_children(t)
}

/// `TreeArena::add_node`: appends a node; its handle names the new last node.
#[verifier::external_body]
pub(crate) fn tag_add(a: &mut TreeArena<TagNode>, n: TagNode, children: Vec<Tree>) -> (t: Tree)
    ensures
        tree_number(t) == tag_nodes(*old(a)).len(),
        tag_nodes(*final(a)) == tag_nodes(*old(a)).push((n, tree_numbers(children@))),
{
    a.add_node(n, children)
}

/// `TreeArena::new`: an arena without nodes.
#[verifier::external_body]
pub(crate) fn tag_arena() -> (a: TreeArena<TagNode>)
    ensures
        tag_nodes(a).len() == 0,
{
    TreeArena::new()
}

/// `parse_tree` on an empty arena: the tree that a text spells. What it is, the
/// contract leaves to the name; the result depends on the text alone.
#[verifier::external_body]
pub(crate) fn parse_text_tree(text: &str) -> (r: Result<(TreeArena<String>, Tree), String>)
    ensures
        (match r {
            Ok((a, t)) => spelled_tree(text@) == Ok::<
                (Seq<(Seq<char>, Seq<nat>)>, nat),
                Seq<char>,
            >((text_nodes(a), tree_number(t))),
            Err(m) => spelled_tree(text@) == Err::<
                (Seq<(Seq<char>, Seq<nat>)>, nat),
                Seq<char>,
            >(m@),
        }),
{
    let mut arena = TreeArena::new();
    match parse_tree(&mut arena, text) {
        Ok(root) => Ok((arena, root)),
        Err(error) => Err(error.to_string()),
    }
}

} // verus!
