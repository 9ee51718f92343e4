//! Trees over named symbols, written on one line.
use crate::apply;
use crate::apply::SymbolTree;
use crate::arena;
use crate::arena::{symbol_children, symbol_label};
use crate::ids::Symbol;
use crate::signature::{NameList, Signature};
use packed_term_arena::tree::{Tree, TreeArena};
use vstd::prelude::*;
use vstd::string::StringExecFns;

verus! {

/// A tree on one line: the name of its symbol, and behind it the children in brackets, if
/// there are any.
pub open spec fn tree_text(names: NameList, t: SymbolTree) -> Seq<char>
    decreases t,
{
    let name = names[t.symbol.0 as int].0;
    if t.children.len() == 0 {
        name
    } else {
        name + "("@ + list_text(names, t.children) + ")"@
    }
}

/// Trees on one line, with commas between them.
pub open spec fn list_text(names: NameList, list: Seq<SymbolTree>) -> Seq<char>
    decreases list,
{
    if list.len() == 0 {
        Seq::empty()
    } else if list.len() == 1 {
        tree_text(names, list.last())
    } else {
        list_text(names, list.drop_last()) + ", "@ + tree_text(names, list.last())
    }
}

/// Whether all symbols of a tree have names.
pub open spec fn is_named(names: NameList, t: SymbolTree) -> bool
    decreases t,
{
    t.symbol.0 < names.len() && forall|i: int|
        0 <= i < t.children.len() ==> is_named(names, #[trigger] t.children[i])
}

/// Writes a tree on one line.
pub fn tree_line(a: &TreeArena<Symbol>, root: Tree, names: &Signature) -> (s: String)
    requires
        arena::children_first(arena::symbol_nodes(*a)),
        arena::tree_number(root) < arena::symbol_nodes(*a).len(),
        is_named(
            names@,
            apply::tree_at(arena::symbol_nodes(*a), arena::tree_number(root)),
        ),
    ensures
        s@ == tree_text(
            names@,
            apply::tree_at(arena::symbol_nodes(*a), arena::tree_number(root)),
        ),
    decreases arena::tree_number(root),
{
    let ghost nodes = arena::symbol_nodes(*a);
    let ghost number = arena::tree_number(root);
    let ghost t = apply::tree_at(nodes, number);
    proof {
        apply::lemma_tree_children(nodes, number);
    }
    let f = symbol_label(a, root);
    let children = symbol_children(a, root);
    let mut s = String::from_str(names.resolve(f));
    let ghost name = s@;
    if children.len() == 0 {
        return s;
    }
    s.append("(");
    let mut i: usize = 0;
    assert(t.children.take(0) =~= Seq::empty());
    assert(s@ =~= name + "("@ + list_text(names@, t.children.take(0)));
    while i < children.len()
        invariant
            i <= children@.len(),
            nodes == arena::symbol_nodes(*a),
            number == arena::tree_number(root),
            number < nodes.len(),
            arena::children_first(nodes),
            t == apply::tree_at(nodes, number),
            is_named(names@, t),
            arena::tree_numbers(children@) == nodes[number as int].1,
            t.children.len() == children@.len(),
            forall|k: int|
                0 <= k < t.children.len() ==> #[trigger] t.children[k] == apply::tree_at(
                    nodes,
                    nodes[number as int].1[k],
                ),
            s@ == name + "("@ + list_text(names@, t.children.take(i as int)),
        decreases children@.len() - i,
    {
        let ghost before = s@;
        let ghost fewer = t.children.take(i as int);
        let ghost more = t.children.take(i + 1);
        proof {
            assert(arena::tree_numbers(children@)[i as int] == arena::tree_number(
                children@[i as int],
            ));
            assert(nodes[number as int].1[i as int] < number);
            assert(more.drop_last() =~= fewer);
            assert(more.last() == t.children[i as int]);
        }
        if i > 0 {
            s.append(", ");
        }
        let part = tree_line(a, children[i], names);
        s.append(part.as_str());
        proof {
            if i == 0 {
                assert(fewer.len() == 0);
                assert(before =~= name + "("@);
            }
            assert(s@ =~= name + "("@ + list_text(names@, more));
        }
        i += 1;
    }
    assert(t.children.take(i as int) =~= t.children);
    s.append(")");
    s
}

} // verus!
