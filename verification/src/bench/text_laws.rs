//! Trees that are written as text are read back.
use crate::apply::SymbolTree;
use crate::arena;
use crate::bench::tree_text;
use crate::bench::tree_text::{TextFault, TextNode};
use crate::codecs::tulipac::spelling_laws;
use crate::label_tree;
use crate::label_tree::LabelTree;
use crate::signature::NameList;
use crate::text;
use crate::tree_lines;
use vstd::prelude::*;

verus! {

/// A tree with texts as labels.
pub type NamedTree = LabelTree<Seq<char>>;

/// A tree as it is written: a label, and children between brackets.
pub open spec fn written(t: NamedTree) -> Seq<char>
    decreases t,
{
    if t.children.len() == 0 {
        t.label
    } else {
        t.label + (seq!['('] + (written_list(t.children) + seq![')']))
    }
}

/// Trees as they are written, with commas between them.
pub open spec fn written_list(list: Seq<NamedTree>) -> Seq<char>
    decreases list,
{
    if list.len() == 0 {
        Seq::empty()
    } else if list.len() == 1 {
        written(list[0])
    } else {
        written(list[0]) + (seq![',', ' '] + written_list(list.subrange(1, list.len() as int)))
    }
}

/// Whether a label can stand without quotes.
pub open spec fn is_plain(label: Seq<char>) -> bool {
    &&& label.len() > 0
    &&& label[0] != '\'' && label[0] != '"'
    &&& forall|i: int|
        0 <= i < label.len() ==> !text::white_space(#[trigger] label[i]) && label[i] != '('
            && label[i] != ')' && label[i] != ','
}

/// Whether all labels of a tree can stand without quotes.
pub open spec fn all_plain(t: NamedTree) -> bool
    decreases t,
{
    is_plain(t.label) && forall|i: int|
        0 <= i < t.children.len() ==> all_plain(#[trigger] t.children[i])
}

/// Whether a label ends at `p`.
pub open spec fn stops(c: Seq<char>, p: int) -> bool {
    p == c.len() || (p < c.len() && (c[p] == ')' || c[p] == ','))
}

proof fn lemma_label(c: Seq<char>, i: int, k: int)
    requires
        0 <= i <= k <= c.len(),
        forall|j: int| i <= j < k ==> !tree_text::ends_label(#[trigger] c[j]),
        k < c.len() ==> tree_text::ends_label(c[k]),
    ensures
        tree_text::label_end(c, i) == k,
    decreases k - i,
{
    if i < k {
        assert(!tree_text::ends_label(c[i]));
        lemma_label(c, i + 1, k);
    }
}

/// A label without quotes is read as it is written.
proof fn lemma_label_at(c: Seq<char>, i: int, label: Seq<char>)
    requires
        spelling_laws::lies(c, i, label),
        is_plain(label),
        i + label.len() < c.len() ==> tree_text::ends_label(c[i + label.len()]),
    ensures
        tree_text::label_at(c, i) == Ok::<(Seq<char>, int), TextFault>((label, i + label.len())),
        !text::white_space(c[i]),
        c[i] != '(' && c[i] != ')',
{
    let k = i + label.len();
    assert(label[0] == c[i + 0]);
    assert forall|j: int| i <= j < k implies !tree_text::ends_label(#[trigger] c[j]) by {
        assert(label[j - i] == c[i + (j - i)]);
    }
    lemma_label(c, i, k);
    assert(c.subrange(i, k) =~= label);
}

/// A written tree starts with its label.
proof fn lemma_starts(t: NamedTree)
    requires
        all_plain(t),
    ensures
        written(t).len() > 0,
        !text::white_space(written(t)[0]),
        written(t)[0] != ')' && written(t)[0] != '(',
{
    assert(written(t)[0] == t.label[0]);
}

/// Whether reading a tree gives it: the nodes that were there stay, and the last node is
/// the root.
pub open spec fn gives(nodes: Seq<TextNode>, all: Seq<TextNode>, t: NamedTree) -> bool {
    &&& label_tree::grows(nodes, all)
    &&& arena::children_first(all)
    &&& all.len() > nodes.len()
    &&& label_tree::tree_at(all, (all.len() - 1) as nat) == t
}

/// A tree is read back, with at most one space before it.
proof fn lemma_tree(c: Seq<char>, i: int, p: int, nodes: Seq<TextNode>, t: NamedTree)
    requires
        all_plain(t),
        p == i || (p == i + 1 && i < c.len() && text::white_space(c[i])),
        0 <= i,
        spelling_laws::lies(c, p, written(t)),
        stops(c, p + written(t).len()),
        arena::children_first(nodes),
    ensures
        ({
            let (all, end) = tree_text::tree_from(c, i, nodes);
            end == Ok::<int, TextFault>(p + written(t).len()) && gives(nodes, all, t)
        }),
    decreases t, 0nat,
{
    let w = written(t);
    let e = p + w.len();
    lemma_starts(t);
    assert(w[0] == c[p + 0]);
    assert(tree_text::after_space(c, p) == p);
    assert(tree_text::after_space(c, i) == p);
    let k = p + t.label.len();
    if t.children.len() == 0 {
        lemma_label_at(c, p, t.label);
        assert(tree_text::after_space(c, k) == k);
        let all = nodes.push((t.label, Seq::empty()));
        assert(label_tree::grows(nodes, all));
        lemma_pushed(nodes, t.label, Seq::empty());
        assert(label_tree::tree_at(all, nodes.len()).children =~= t.children);
    } else {
        let inner = written_list(t.children);
        spelling_laws::lemma_split(c, p, t.label, seq!['('] + (inner + seq![')']));
        spelling_laws::lemma_split(c, k, seq!['('], inner + seq![')']);
        assert(seq!['('][0] == c[k + 0]);
        lemma_label_at(c, p, t.label);
        assert(tree_text::after_space(c, k) == k);
        spelling_laws::lemma_split(c, k + 1, inner, seq![')']);
        lemma_list_starts(t.children);
        assert(inner[0] == c[k + 1 + 0]);
        assert(tree_text::after_space(c, k + 1) == k + 1);
        assert(seq![')'][0] == c[k + 1 + inner.len() + 0]);
        lemma_trees(c, k + 1, k + 1, nodes, Seq::empty(), t.children);
        let (all, kids, end) = tree_text::trees_from(c, k + 1, nodes, Seq::empty());
        let done = all.push((t.label, kids));
        lemma_pushed(all, t.label, kids);
        assert(label_tree::grows(all, done));
        label_tree::lemma_grows_transitive(nodes, all, done);
        let root = label_tree::tree_at(done, all.len());
        label_tree::lemma_tree_children(done, all.len());
        assert forall|j: int| 0 <= j < t.children.len() implies root.children[j]
            == t.children[j] by {
            label_tree::lemma_tree_stable(all, done, kids[j]);
            assert(kids[0 + j] < all.len());
        }
        assert(root.children =~= t.children);
    }
}

/// A node whose children are there can be added.
proof fn lemma_pushed(nodes: Seq<TextNode>, label: Seq<char>, kids: Seq<nat>)
    requires
        arena::children_first(nodes),
        forall|j: int| 0 <= j < kids.len() ==> (#[trigger] kids[j]) < nodes.len(),
    ensures
        arena::children_first(nodes.push((label, kids))),
{
    let all = nodes.push((label, kids));
    assert forall|i: int, c: int| 0 <= i < all.len() && 0 <= c < all[i].1.len() implies (
    #[trigger] all[i].1[c]) < i by {
        if i < nodes.len() {
            assert(nodes[i].1[c] < i);
        }
    }
}

proof fn lemma_list_starts(list: Seq<NamedTree>)
    requires
        list.len() > 0,
        all_plain(list[0]),
    ensures
        written_list(list).len() > 0,
        !text::white_space(written_list(list)[0]),
        written_list(list)[0] != ')' && written_list(list)[0] != '(',
{
    lemma_starts(list[0]);
    assert(written_list(list)[0] == written(list[0])[0]);
}

/// Trees are read back from left to right, up to the bracket behind them.
proof fn lemma_trees(
    c: Seq<char>,
    i: int,
    p: int,
    nodes: Seq<TextNode>,
    kids: Seq<nat>,
    list: Seq<NamedTree>,
)
    requires
        list.len() > 0,
        forall|j: int| 0 <= j < list.len() ==> all_plain(#[trigger] list[j]),
        p == i || (p == i + 1 && i < c.len() && text::white_space(c[i])),
        0 <= i,
        spelling_laws::lies(c, p, written_list(list)),
        p + written_list(list).len() < c.len(),
        c[p + written_list(list).len()] == ')',
        arena::children_first(nodes),
        forall|j: int| 0 <= j < kids.len() ==> (#[trigger] kids[j]) < nodes.len(),
    ensures
        ({
            let (all, more, end) = tree_text::trees_from(c, i, nodes, kids);
            &&& end == Ok::<int, TextFault>(p + written_list(list).len() + 1)
            &&& label_tree::grows(nodes, all)
            &&& arena::children_first(all)
            &&& more.len() == kids.len() + list.len()
            &&& forall|j: int| 0 <= j < kids.len() ==> #[trigger] more[j] == kids[j]
            &&& forall|j: int| 0 <= j < more.len() ==> (#[trigger] more[j]) < all.len()
            &&& forall|j: int|
                0 <= j < list.len() ==> label_tree::tree_at(all, more[kids.len() + j])
                    == #[trigger] list[j]
        }),
    decreases list, 1nat,
{
    let w = written_list(list);
    let first = written(list[0]);
    assert(all_plain(list[0]));
    lemma_starts(list[0]);
    let (all, end) = tree_text::tree_from(c, i, nodes);
    let more = kids.push((all.len() - 1) as nat);
    let q = p + first.len();
    if list.len() == 1 {
        lemma_tree(c, i, p, nodes, list[0]);
        assert(tree_text::after_space(c, q) == q);
        assert(more[kids.len() as int + 0] == all.len() - 1);
    } else {
        let rest = list.subrange(1, list.len() as int);
        let tail = written_list(rest);
        spelling_laws::lemma_split(c, p, first, seq![',', ' '] + tail);
        spelling_laws::lemma_split(c, q, seq![',', ' '], tail);
        let sep = seq![',', ' '];
        assert(sep[0] == c[q + 0] && sep[1] == c[q + 1]);
        lemma_tree(c, i, p, nodes, list[0]);
        assert(tree_text::after_space(c, q) == q);
        assert forall|j: int| 0 <= j < rest.len() implies all_plain(#[trigger] rest[j]) by {
            assert(rest[j] == list[j + 1]);
        }
        lemma_trees(c, q + 1, q + 2, all, more, rest);
        let (done, kinds, last) = tree_text::trees_from(c, q + 1, all, more);
        label_tree::lemma_grows_transitive(nodes, all, done);
        label_tree::lemma_tree_stable(all, done, (all.len() - 1) as nat);
        assert(kinds[kids.len() as int] == more[kids.len() as int]);
        assert forall|j: int| 0 <= j < list.len() implies label_tree::tree_at(
            done,
            kinds[kids.len() + j],
        ) == #[trigger] list[j] by {
            if j > 0 {
                assert(rest[j - 1] == list[j]);
                assert(kinds[more.len() + (j - 1)] == kinds[kids.len() + j]);
            }
        }
        assert forall|j: int| 0 <= j < kids.len() implies #[trigger] kinds[j] == kids[j] by {
            assert(kinds[j] == more[j]);
        }
    }
}

/// A tree that is written on a line is read back from it: its labels, and its children in
/// their order.
pub proof fn law_trees_read_back(t: NamedTree)
    requires
        all_plain(t),
    ensures
        ({
            let (nodes, fault) = tree_text::spelled(written(t));
            &&& fault is None
            &&& nodes.len() > 0
            &&& label_tree::tree_at(nodes, (nodes.len() - 1) as nat) == t
        }),
{
    let c = written(t);
    lemma_tree(c, 0, 0, Seq::empty(), t);
    assert(tree_text::after_space(c, c.len() as int) == c.len());
}

/// Whether a tree has the names of the symbols of another.
pub open spec fn is_named_as(names: NameList, t: SymbolTree, n: NamedTree) -> bool
    decreases t,
{
    &&& t.symbol.0 < names.len()
    &&& n.label == names[t.symbol.0 as int].0
    &&& n.children.len() == t.children.len()
    &&& forall|i: int|
        0 <= i < t.children.len() ==> is_named_as(names, #[trigger] t.children[i], n.children[i])
}

proof fn lemma_written_push(list: Seq<NamedTree>, x: NamedTree)
    requires
        list.len() > 0,
    ensures
        written_list(list.push(x)) == written_list(list) + (seq![',', ' '] + written(x)),
    decreases list.len(),
{
    let all = list.push(x);
    let rest = list.subrange(1, list.len() as int);
    let more = all.subrange(1, all.len() as int);
    assert(more =~= rest.push(x));
    if list.len() == 1 {
        assert(more =~= seq![x]);
        assert(written_list(more) == written(x));
    } else {
        lemma_written_push(rest, x);
    }
    assert(written_list(all) =~= written_list(list) + (seq![',', ' '] + written(x)));
}

proof fn lemma_tree_text(names: NameList, t: SymbolTree, n: NamedTree)
    requires
        is_named_as(names, t, n),
    ensures
        tree_lines::tree_text(names, t) == written(n),
    decreases t, 0nat,
{
    if t.children.len() > 0 {
        reveal_strlit("(");
        reveal_strlit(")");
        assert(t.children.take(t.children.len() as int) =~= t.children);
        lemma_list_text(names, t.children, t.children, n.children);
        assert(tree_lines::tree_text(names, t) =~= written(n));
    }
}

proof fn lemma_list_text(
    names: NameList,
    whole: Seq<SymbolTree>,
    list: Seq<SymbolTree>,
    named: Seq<NamedTree>,
)
    requires
        0 < list.len() <= whole.len(),
        list == whole.take(list.len() as int),
        named.len() == list.len(),
        forall|i: int|
            0 <= i < list.len() ==> is_named_as(names, #[trigger] list[i], named[i]),
    ensures
        tree_lines::list_text(names, list) == written_list(named),
    decreases whole, list.len(),
{
    let n = list.len() as int;
    assert(list.last() == whole[n - 1]);
    assert(is_named_as(names, list[n - 1], named[n - 1]));
    lemma_tree_text(names, list.last(), named.last());
    if n > 1 {
        reveal_strlit(", ");
        let front = list.drop_last();
        assert(front =~= whole.take(n - 1));
        assert forall|i: int| 0 <= i < front.len() implies is_named_as(
            names,
            #[trigger] front[i],
            named.drop_last()[i],
        ) by {
            assert(front[i] == list[i]);
        }
        lemma_list_text(names, whole, front, named.drop_last());
        lemma_written_push(named.drop_last(), named.last());
        assert(named.drop_last().push(named.last()) =~= named);
        assert(tree_lines::list_text(names, list) =~= written_list(named));
    } else {
        assert(named[0] == named.last());
    }
}

/// A derivation that is written on a line is read back from it, with the names of its
/// symbols.
pub proof fn law_tree_lines_read_back(names: NameList, t: SymbolTree, n: NamedTree)
    requires
        is_named_as(names, t, n),
        all_plain(n),
    ensures
        ({
            let (nodes, fault) = tree_text::spelled(tree_lines::tree_text(names, t));
            &&& fault is None
            &&& nodes.len() > 0
            &&& label_tree::tree_at(nodes, (nodes.len() - 1) as nat) == n
        }),
{
    lemma_tree_text(names, t, n);
    law_trees_read_back(n);
}

} // verus!
