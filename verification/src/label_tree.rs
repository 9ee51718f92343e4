//! Trees below the nodes of an arena.
use crate::arena;
use packed_term_arena::tree::Tree;
use vstd::prelude::*;

verus! {

/// A tree with a label at every node.
pub struct LabelTree<L> {
    pub label: L,
    pub children: Seq<LabelTree<L>>,
}

/// The tree below node `i` of an arena whose children come first.
pub open spec fn tree_at<L>(nodes: Seq<(L, Seq<nat>)>, i: nat) -> LabelTree<L>
    decreases i,
{
    LabelTree {
        label: nodes[i as int].0,
        children: Seq::new(
            nodes[i as int].1.len(),
            |c: int|
                if nodes[i as int].1[c] < i {
                    tree_at(nodes, nodes[i as int].1[c])
                } else {
                    arbitrary()
                },
        ),
    }
}

/// The trees below the listed nodes.
pub open spec fn trees_at<L>(nodes: Seq<(L, Seq<nat>)>, list: Seq<nat>) -> Seq<LabelTree<L>> {
    Seq::new(list.len(), |c: int| tree_at(nodes, list[c]))
}

/// The number of nodes of a tree.
pub open spec fn size<L>(t: LabelTree<L>) -> nat
    decreases t,
{
    1 + sizes(t.children)
}

/// The number of nodes of trees.
pub open spec fn sizes<L>(ts: Seq<LabelTree<L>>) -> nat
    decreases ts,
{
    if ts.len() == 0 {
        0
    } else {
        sizes(ts.drop_last()) + size(ts.last())
    }
}

/// The trees of two lists have as many nodes as both together.
pub proof fn lemma_sizes_concat<L>(a: Seq<LabelTree<L>>, b: Seq<LabelTree<L>>)
    ensures
        sizes(a + b) == sizes(a) + sizes(b),
    decreases b.len(),
{
    if b.len() == 0 {
        assert(a + b =~= a);
    } else {
        lemma_sizes_concat(a, b.drop_last());
        assert((a + b).drop_last() =~= a + b.drop_last());
        assert((a + b).last() == b.last());
    }
}

/// Whether `b` continues `a`.
pub open spec fn grows<L>(a: Seq<(L, Seq<nat>)>, b: Seq<(L, Seq<nat>)>) -> bool {
    a.len() <= b.len() && forall|i: int| 0 <= i < a.len() ==> #[trigger] b[i] == a[i]
}

pub proof fn lemma_grows_transitive<L>(
    a: Seq<(L, Seq<nat>)>,
    b: Seq<(L, Seq<nat>)>,
    c: Seq<(L, Seq<nat>)>,
)
    requires
        grows(a, b),
        grows(b, c),
    ensures
        grows(a, c),
{
    assert forall|i: int| 0 <= i < a.len() implies #[trigger] c[i] == a[i] by {
        assert(b[i] == a[i]);
    }
}

/// Growing an arena keeps its trees.
pub proof fn lemma_tree_stable<L>(a: Seq<(L, Seq<nat>)>, b: Seq<(L, Seq<nat>)>, i: nat)
    requires
        arena::children_first(a),
        grows(a, b),
        i < a.len(),
    ensures
        tree_at(a, i) == tree_at(b, i),
    decreases i,
{
    assert(b[i as int] == a[i as int]);
    let x = tree_at(a, i).children;
    let y = tree_at(b, i).children;
    assert forall|c: int| 0 <= c < x.len() implies x[c] == y[c] by {
        assert(a[i as int].1[c] < i);
        lemma_tree_stable(a, b, a[i as int].1[c]);
    }
    assert(x =~= y);
}

/// The children of the tree below a node.
pub proof fn lemma_tree_children<L>(nodes: Seq<(L, Seq<nat>)>, i: nat)
    requires
        arena::children_first(nodes),
        i < nodes.len(),
    ensures
        tree_at(nodes, i).label == nodes[i as int].0,
        tree_at(nodes, i).children == trees_at(nodes, nodes[i as int].1),
        forall|c: int| 0 <= c < nodes[i as int].1.len() ==> #[trigger] nodes[i as int].1[c] < i,
{
    assert(tree_at(nodes, i).children =~= trees_at(nodes, nodes[i as int].1));
}

/// Whether the handles name trees of the arena, and which.
pub open spec fn handles_ok<L>(
    nodes: Seq<(L, Seq<nat>)>,
    handles: Seq<Tree>,
    trees: Seq<LabelTree<L>>,
) -> bool {
    &&& handles.len() == trees.len()
    &&& forall|i: int|
        0 <= i < handles.len() ==> {
            &&& arena::tree_number(#[trigger] handles[i]) < nodes.len()
            &&& tree_at(nodes, arena::tree_number(handles[i])) == trees[i]
        }
}

pub proof fn lemma_handles_grow<L>(
    a: Seq<(L, Seq<nat>)>,
    b: Seq<(L, Seq<nat>)>,
    handles: Seq<Tree>,
    trees: Seq<LabelTree<L>>,
)
    requires
        arena::children_first(a),
        grows(a, b),
        handles_ok(a, handles, trees),
    ensures
        handles_ok(b, handles, trees),
{
    assert forall|i: int| 0 <= i < handles.len() implies {
        &&& arena::tree_number(#[trigger] handles[i]) < b.len()
        &&& tree_at(b, arena::tree_number(handles[i])) == trees[i]
    } by {
        lemma_tree_stable(a, b, arena::tree_number(handles[i]));
    }
}

/// Appending a node whose children are known trees.
pub proof fn lemma_add<L>(
    nodes: Seq<(L, Seq<nat>)>,
    label: L,
    handles: Seq<Tree>,
    trees: Seq<LabelTree<L>>,
)
    requires
        arena::children_first(nodes),
        handles_ok(nodes, handles, trees),
    ensures
        ({
            let now = nodes.push((label, arena::tree_numbers(handles)));
            &&& arena::children_first(now)
            &&& grows(nodes, now)
            &&& tree_at(now, nodes.len()) == (LabelTree { label, children: trees })
        }),
{
    let now = nodes.push((label, arena::tree_numbers(handles)));
    assert forall|i: int, c: int| 0 <= i < now.len() && 0 <= c < now[i].1.len() implies
        #[trigger] now[i].1[c] < i by {
        if i < nodes.len() {
            assert(nodes[i].1[c] < i);
        } else {
            assert(now[i].1[c] == arena::tree_number(handles[c]));
        }
    }
    let t = tree_at(now, nodes.len());
    assert forall|c: int| 0 <= c < t.children.len() implies t.children[c] == trees[c] by {
        assert(now[nodes.len() as int].1[c] == arena::tree_number(handles[c]));
        lemma_tree_stable(nodes, now, arena::tree_number(handles[c]));
    }
    assert(t.children =~= trees);
}

} // verus!
