//! The feature-structure image of a lexicalized elementary tree.
use crate::alto_ast;
use crate::alto_ast::{binary, decimal_text, leaf, unary, AstHomTerm, HomAst};
use crate::arena;
use crate::arena::{tag_children, tag_label};
use crate::codecs::tulipac::features;
use crate::codecs::tulipac::features::{AtomModel, FeatureAtom, FeatureMap, Features};
use crate::codecs::tulipac::images;
use crate::codecs::tulipac::images::{ImageError, ImageFault};
use crate::codecs::tulipac::syntax;
use crate::codecs::tulipac::syntax::{ElementaryTree, NodeModel, NodeType, TagNode, TagTree};
use crate::label_tree;
use crate::text;
use crate::text::{is_text, joined, same_text};
use packed_term_arena::tree::{Tree, TreeArena};
use vstd::prelude::*;
use vstd::string::StringExecFns;

verus! {

/// Texts with a separator between them.
pub open spec fn separated(list: Seq<Seq<char>>, separator: Seq<char>) -> Seq<char>
    decreases list.len(),
{
    if list.len() == 0 {
        Seq::empty()
    } else if list.len() == 1 {
        list[0]
    } else {
        separated(list.drop_last(), separator) + separator + list.last()
    }
}

/// Puts texts together with a separator between them.
pub fn separate(list: &Vec<String>, separator: &str) -> (s: String)
    ensures
        s@ == separated(text::texts(list@), separator@),
{
    let ghost all = text::texts(list@);
    let mut s = String::new();
    let mut i: usize = 0;
    assert(all.take(0) =~= Seq::empty());
    while i < list.len()
        invariant
            i <= list@.len(),
            all == text::texts(list@),
            s@ == separated(all.take(i as int), separator@),
        decreases list@.len() - i,
    {
        proof {
            let now = all.take(i + 1);
            assert(now.drop_last() =~= all.take(i as int));
            assert(now.last() == list@[i as int]@);
        }
        if i > 0 {
            s.append(separator);
        }
        s.append(list[i].as_str());
        proof {
            if i == 0 {
                assert(s@ =~= all[0]);
            }
        }
        i += 1;
    }
    assert(all.take(i as int) =~= all);
    s
}

/// The name of the `k`-th node that is not a foot.
pub open spec fn node_name(k: nat) -> Seq<char> {
    "n"@ + alto_ast::decimal(k)
}

/// The names of the nodes that variables stand for, children before parents, when
/// numbers from `k` on are free; and the next free number.
pub open spec fn variable_nodes(t: TagTree, k: nat) -> (Seq<Seq<char>>, nat)
    decreases t,
{
    let (below, next) = variable_nodes_in(t.children, k);
    if t.label.node_type == NodeType::Foot {
        (below, next)
    } else if t.label.node_type == NodeType::Substitution || !t.label.no_adjunction {
        (below.push(node_name(next)), next + 1)
    } else {
        (below, next + 1)
    }
}

/// The names of the nodes that variables of trees stand for, from left to right.
pub open spec fn variable_nodes_in(ts: Seq<TagTree>, k: nat) -> (Seq<Seq<char>>, nat)
    decreases ts,
{
    if ts.len() == 0 {
        (Seq::empty(), k)
    } else {
        let (front, next) = variable_nodes_in(ts.drop_last(), k);
        let (last, more) = variable_nodes(ts.last(), next);
        (front + last, more)
    }
}

/// The features that a node has for certain.
pub open spec fn given(f: Option<Features>) -> Features {
    match f {
        Some(m) => m,
        None => Features::empty(),
    }
}

/// The named feature maps of one node, when the next free number is `k`. A head
/// node takes the features of the word.
pub open spec fn node_attributes(n: NodeModel, word: Features, k: nat) -> Result<
    Seq<(Seq<char>, Features)>,
    ImageFault,
> {
    match n.node_type {
        NodeType::Foot => Ok(seq![("foot"@, given(n.top))]),
        NodeType::Substitution => Ok(seq![(node_name(k), given(n.top))]),
        NodeType::Default => Ok(
            seq![(node_name(k) + "t"@, given(n.top)), (node_name(k) + "b"@, given(n.bottom))],
        ),
        NodeType::Head => match features::merge_of(given(n.bottom), word) {
            Ok(bottom) => Ok(
                seq![(node_name(k) + "t"@, given(n.top)), (node_name(k) + "b"@, bottom)],
            ),
            Err(e) => Err(ImageFault::Clash(e)),
        },
    }
}

/// The named feature maps of a tree, children before parents, when numbers from `k`
/// on are free; and the next free number.
pub open spec fn attributes(t: TagTree, word: Features, k: nat) -> Result<
    (Seq<(Seq<char>, Features)>, nat),
    ImageFault,
>
    decreases t,
{
    match attributes_in(t.children, word, k) {
        Ok((below, next)) => match node_attributes(t.label, word, next) {
            Ok(own) => Ok(
                (
                    below + own,
                    if t.label.node_type == NodeType::Foot {
                        next
                    } else {
                        next + 1
                    },
                ),
            ),
            Err(e) => Err(e),
        },
        Err(e) => Err(e),
    }
}

/// The named feature maps of trees from left to right; the leftmost failure counts.
pub open spec fn attributes_in(ts: Seq<TagTree>, word: Features, k: nat) -> Result<
    (Seq<(Seq<char>, Features)>, nat),
    ImageFault,
>
    decreases ts,
{
    if ts.len() == 0 {
        Ok((Seq::empty(), k))
    } else {
        match attributes_in(ts.drop_last(), word, k) {
            Ok((front, next)) => match attributes(ts.last(), word, next) {
                Ok((last, more)) => Ok((front + last, more)),
                Err(e) => Err(e),
            },
            Err(e) => Err(e),
        }
    }
}

/// A feature value written out.
pub open spec fn atom_literal(a: AtomModel) -> Seq<char> {
    match a {
        AtomModel::Constant(s) => s,
        AtomModel::Variable(s) => "#"@ + s,
    }
}

/// The features of a map written out one by one.
pub open spec fn feature_fields(f: Features) -> Seq<Seq<char>> {
    Seq::new(f.len(), |i: int| f[i].0 + ": "@ + atom_literal(f[i].1))
}

/// A feature map written out.
pub open spec fn feature_literal(f: Features) -> Seq<char> {
    "["@ + separated(feature_fields(f), ", "@) + "]"@
}

/// One named feature map written out; the one of the root is marked.
pub open spec fn attribute_field(
    attribute: (Seq<char>, Features),
    root: Seq<char>,
) -> Seq<char> {
    attribute.0 + ": "@ + (if attribute.0 == root {
        "#__root "@ + feature_literal(attribute.1)
    } else {
        feature_literal(attribute.1)
    })
}

/// Named feature maps written out one by one.
pub open spec fn attribute_fields(
    list: Seq<(Seq<char>, Features)>,
    root: Seq<char>,
) -> Seq<Seq<char>> {
    Seq::new(list.len(), |i: int| attribute_field(list[i], root))
}

/// Whether a node can be the root of an elementary tree with features.
pub open spec fn ordinary_root(n: NodeModel) -> bool {
    n.node_type == NodeType::Default || n.node_type == NodeType::Head
}

/// The feature structure of a lexicalized elementary tree, written out.
pub open spec fn core_literal(t: TagTree, word: Features) -> Result<Seq<char>, ImageFault> {
    match attributes(t, word, 1) {
        Ok((list, next)) => if ordinary_root(t.label) {
            let root = node_name((next - 1) as nat) + "t"@;
            Ok(
                "["@ + separated(attribute_fields(list, root).push("root: #__root"@), ", "@)
                    + "]"@,
            )
        } else {
            Err(ImageFault::RootNotOrdinary)
        },
        Err(e) => Err(e),
    }
}

/// The feature image of a tree image. Variables take the feature structures of
/// their trees to the nodes they stand for; leaves carry the feature structure of
/// the elementary tree; everything is unified from right to left.
pub open spec fn feature_image(
    t: HomAst,
    states: Seq<Seq<char>>,
    nodes: Seq<Seq<char>>,
    core: Seq<char>,
) -> Result<HomAst, ImageFault>
    decreases t,
{
    match t {
        HomAst::Variable(v) => if 1 <= v <= nodes.len() && v <= states.len() {
            let node = nodes[v - 1];
            Ok(
                if images::substitutes(states[v - 1]) {
                    HomAst::Symbol(
                        "emb_"@ + node,
                        seq![HomAst::Symbol("proj_root"@, seq![t])],
                    )
                } else {
                    HomAst::Symbol("remap_root="@ + node + "t,foot="@ + node + "b"@, seq![t])
                },
            )
        } else {
            Err(ImageFault::InvalidVariable(v))
        },
        HomAst::Symbol(label, children) => if children.len() == 0 {
            Ok(
                HomAst::Symbol(
                    if label == "*"@ {
                        "[]"@
                    } else {
                        core
                    },
                    Seq::empty(),
                ),
            )
        } else {
            feature_images(children, states, nodes, core)
        },
    }
}

/// The feature images of trees, unified from right to left. The leftmost failure
/// counts.
pub open spec fn feature_images(
    ts: Seq<HomAst>,
    states: Seq<Seq<char>>,
    nodes: Seq<Seq<char>>,
    core: Seq<char>,
) -> Result<HomAst, ImageFault>
    decreases ts,
{
    if ts.len() == 0 {
        Ok(HomAst::Variable(0))
    } else {
        match feature_image(ts[0], states, nodes, core) {
            Ok(first) => if ts.len() == 1 {
                Ok(first)
            } else {
                match feature_images(ts.skip(1), states, nodes, core) {
                    Ok(rest) => Ok(HomAst::Symbol("unify"@, seq![rest, first])),
                    Err(e) => Err(e),
                }
            },
            Err(e) => Err(e),
        }
    }
}

/// Collects the names of the nodes that variables stand for.
fn collect_variable_nodes(
    nodes: &TreeArena<TagNode>,
    node: Tree,
    next: usize,
    out: &mut Vec<String>,
) -> (r: usize)
    requires
        arena::children_first(syntax::arena_models(*nodes)),
        arena::tree_number(node) < syntax::arena_models(*nodes).len(),
        variable_nodes(
            label_tree::tree_at(syntax::arena_models(*nodes), arena::tree_number(node)),
            next as nat,
        ).1 <= usize::MAX,
    ensures
        r == variable_nodes(
            label_tree::tree_at(syntax::arena_models(*nodes), arena::tree_number(node)),
            next as nat,
        ).1,
        text::texts(final(out)@) == text::texts(old(out)@) + variable_nodes(
            label_tree::tree_at(syntax::arena_models(*nodes), arena::tree_number(node)),
            next as nat,
        ).0,
    decreases arena::tree_number(node),
{
    let ghost models = syntax::arena_models(*nodes);
    let ghost number = arena::tree_number(node);
    let ghost tree = label_tree::tree_at(models, number);
    let ghost known = text::texts(out@);
    proof {
        label_tree::lemma_tree_children(models, number);
    }
    let data = tag_label(nodes, node);
    let parts = tag_children(nodes, node);
    let ghost numbers = models[number as int].1;
    assert(data@ == tree.label);
    let mut k: usize = next;
    let mut c: usize = 0;
    proof {
        assert(tree.children.take(0) =~= Seq::empty());
        assert(known + variable_nodes_in(tree.children.take(0), next as nat).0 =~= known);
        lemma_variable_nodes_grow(tree.children, next as nat);
    }
    while c < parts.len()
        invariant
            c <= parts@.len(),
            models == syntax::arena_models(*nodes),
            arena::children_first(models),
            number == arena::tree_number(node),
            number < models.len(),
            numbers == models[number as int].1,
            arena::tree_numbers(parts@) == numbers,
            tree == label_tree::tree_at(models, number),
            tree.children == label_tree::trees_at(models, numbers),
            forall|d: int| 0 <= d < numbers.len() ==> #[trigger] numbers[d] < number,
            variable_nodes_in(tree.children, next as nat).1 <= usize::MAX,
            k == variable_nodes_in(tree.children.take(c as int), next as nat).1,
            text::texts(out@) == known + variable_nodes_in(
                tree.children.take(c as int),
                next as nat,
            ).0,
        decreases parts@.len() - c,
    {
        assert(arena::tree_numbers(parts@)[c as int] == arena::tree_number(parts@[c as int]));
        assert(numbers[c as int] < number);
        proof {
            let now = tree.children.take(c + 1);
            assert(now.drop_last() =~= tree.children.take(c as int));
            assert(now.last() == tree.children[c as int]);
            lemma_variable_nodes_prefix(tree.children, next as nat, c + 1);
        }
        k = collect_variable_nodes(nodes, parts[c], k, out);
        proof {
            let now = tree.children.take(c + 1);
            assert(text::texts(out@) =~= known + variable_nodes_in(now, next as nat).0);
        }
        c += 1;
    }
    assert(tree.children.take(c as int) =~= tree.children);
    let ghost below = text::texts(out@);
    match data.node_type {
        NodeType::Foot => k,
        NodeType::Substitution => {
            let id = joined("n", decimal_text(k).as_str());
            out.push(id);
            proof {
                assert(text::texts(out@) =~= below.push(node_name(k as nat)));
                assert(text::texts(out@) =~= known + variable_nodes(tree, next as nat).0);
            }
            k + 1
        },
        _ => {
            if !data.no_adjunction {
                let id = joined("n", decimal_text(k).as_str());
                out.push(id);
                proof {
                    assert(text::texts(out@) =~= below.push(node_name(k as nat)));
                    assert(text::texts(out@) =~= known + variable_nodes(tree, next as nat).0);
                }
            }
            k + 1
        },
    }
}

proof fn lemma_variable_nodes_grow(ts: Seq<TagTree>, k: nat)
    ensures
        variable_nodes_in(ts, k).1 >= k,
    decreases ts,
{
    if ts.len() > 0 {
        lemma_variable_nodes_grow(ts.drop_last(), k);
        lemma_variable_node_grows(ts.last(), variable_nodes_in(ts.drop_last(), k).1);
    }
}

proof fn lemma_variable_node_grows(t: TagTree, k: nat)
    ensures
        variable_nodes(t, k).1 >= k,
        variable_nodes(t, k).1 >= variable_nodes_in(t.children, k).1,
    decreases t,
{
    lemma_variable_nodes_grow(t.children, k);
}

proof fn lemma_variable_nodes_prefix(ts: Seq<TagTree>, k: nat, c: int)
    requires
        0 <= c <= ts.len(),
    ensures
        variable_nodes_in(ts.take(c), k).1 <= variable_nodes_in(ts, k).1,
    decreases ts.len(),
{
    if c < ts.len() {
        assert(ts.drop_last().take(c) =~= ts.take(c));
        lemma_variable_nodes_prefix(ts.drop_last(), k, c);
        lemma_variable_node_grows(ts.last(), variable_nodes_in(ts.drop_last(), k).1);
    } else {
        assert(ts.take(c) =~= ts);
    }
}

/// Numbering the nodes takes at most one number for each.
proof fn lemma_variable_nodes_bound(t: TagTree, k: nat)
    ensures
        variable_nodes(t, k).1 <= k + label_tree::size(t),
    decreases t,
{
    lemma_variable_nodes_in_bound(t.children, k);
}

proof fn lemma_variable_nodes_in_bound(ts: Seq<TagTree>, k: nat)
    ensures
        variable_nodes_in(ts, k).1 <= k + label_tree::sizes(ts),
    decreases ts,
{
    if ts.len() > 0 {
        lemma_variable_nodes_in_bound(ts.drop_last(), k);
        lemma_variable_nodes_bound(ts.last(), variable_nodes_in(ts.drop_last(), k).1);
    }
}

/// Attributes number the nodes in the same way.
proof fn lemma_same_numbers(t: TagTree, word: Features, k: nat)
    ensures
        attributes(t, word, k) matches Ok((list, next)) ==> next == variable_nodes(t, k).1,
    decreases t,
{
    lemma_same_numbers_in(t.children, word, k);
}

proof fn lemma_same_numbers_in(ts: Seq<TagTree>, word: Features, k: nat)
    ensures
        attributes_in(ts, word, k) matches Ok((list, next)) ==> next == variable_nodes_in(ts, k).1,
    decreases ts,
{
    if ts.len() > 0 {
        lemma_same_numbers_in(ts.drop_last(), word, k);
        if let Ok((front, next)) = attributes_in(ts.drop_last(), word, k) {
            lemma_same_numbers(ts.last(), word, next);
        }
    }
}

/// A failure stays when more trees follow.
proof fn lemma_attributes_error(ts: Seq<TagTree>, word: Features, k: nat, c: int)
    requires
        0 <= c <= ts.len(),
        attributes_in(ts.take(c), word, k) is Err,
    ensures
        attributes_in(ts, word, k) == attributes_in(ts.take(c), word, k),
    decreases ts.len(),
{
    if c < ts.len() {
        assert(ts.drop_last().take(c) =~= ts.take(c));
        lemma_attributes_error(ts.drop_last(), word, k, c);
    } else {
        assert(ts.take(c) =~= ts);
    }
}

/// A feature map with a name.
struct NamedFeatures {
    name: String,
    features: FeatureMap,
}

spec fn named_views(list: Seq<NamedFeatures>) -> Seq<(Seq<char>, Features)> {
    Seq::new(list.len(), |i: int| (list[i].name@, list[i].features@))
}

fn given_map(f: &Option<FeatureMap>) -> (m: FeatureMap)
    ensures
        m@ == given(syntax::optional_features(*f)),
{
    match f {
        Some(map) => map.duplicate(),
        None => FeatureMap::new(),
    }
}

/// Appends the named feature maps of a tree.
fn collect_attributes(
    nodes: &TreeArena<TagNode>,
    node: Tree,
    word: &FeatureMap,
    next: usize,
    out: &mut Vec<NamedFeatures>,
) -> (r: Result<usize, ImageError>)
    requires
        arena::children_first(syntax::arena_models(*nodes)),
        arena::tree_number(node) < syntax::arena_models(*nodes).len(),
        variable_nodes(
            label_tree::tree_at(syntax::arena_models(*nodes), arena::tree_number(node)),
            next as nat,
        ).1 <= usize::MAX,
    ensures
        ({
            let tree = label_tree::tree_at(
                syntax::arena_models(*nodes),
                arena::tree_number(node),
            );
            match r {
                Ok(k) => attributes(tree, word@, next as nat) matches Ok((list, n)) && n == k
                    && named_views(final(out)@) == named_views(old(out)@) + list,
                Err(e) => attributes(tree, word@, next as nat) == Err::<
                    (Seq<(Seq<char>, Features)>, nat),
                    ImageFault,
                >(e@),
            }
        }),
    decreases arena::tree_number(node),
{
    let ghost models = syntax::arena_models(*nodes);
    let ghost number = arena::tree_number(node);
    let ghost tree = label_tree::tree_at(models, number);
    let ghost known = named_views(out@);
    let ghost w = word@;
    proof {
        label_tree::lemma_tree_children(models, number);
        lemma_variable_node_grows(tree, next as nat);
    }
    let data = tag_label(nodes, node);
    let parts = tag_children(nodes, node);
    let ghost numbers = models[number as int].1;
    assert(data@ == tree.label);
    let ghost mut below: Seq<(Seq<char>, Features)> = Seq::empty();
    let mut k: usize = next;
    let mut c: usize = 0;
    proof {
        assert(tree.children.take(0) =~= Seq::empty());
        assert(known + below =~= known);
    }
    while c < parts.len()
        invariant
            c <= parts@.len(),
            models == syntax::arena_models(*nodes),
            arena::children_first(models),
            number == arena::tree_number(node),
            number < models.len(),
            numbers == models[number as int].1,
            arena::tree_numbers(parts@) == numbers,
            tree == label_tree::tree_at(models, number),
            tree.children == label_tree::trees_at(models, numbers),
            forall|d: int| 0 <= d < numbers.len() ==> #[trigger] numbers[d] < number,
            w == word@,
            variable_nodes_in(tree.children, next as nat).1 <= usize::MAX,
            attributes_in(tree.children.take(c as int), w, next as nat) == Ok::<
                (Seq<(Seq<char>, Features)>, nat),
                ImageFault,
            >((below, k as nat)),
            named_views(out@) == known + below,
        decreases parts@.len() - c,
    {
        assert(arena::tree_numbers(parts@)[c as int] == arena::tree_number(parts@[c as int]));
        assert(numbers[c as int] < number);
        proof {
            let now = tree.children.take(c + 1);
            assert(now.drop_last() =~= tree.children.take(c as int));
            assert(now.last() == tree.children[c as int]);
            lemma_variable_nodes_prefix(tree.children, next as nat, c + 1);
            lemma_same_numbers_in(tree.children.take(c as int), w, next as nat);
        }
        match collect_attributes(nodes, parts[c], word, k, out) {
            Ok(n) => {
                proof {
                    let more = attributes(tree.children[c as int], w, k as nat)->Ok_0.0;
                    assert(named_views(out@) =~= known + (below + more));
                    below = below + more;
                }
                k = n;
            },
            Err(e) => {
                proof {
                    lemma_attributes_error(tree.children, w, next as nat, c + 1);
                }
                return Err(e);
            },
        }
        c += 1;
    }
    proof {
        assert(tree.children.take(c as int) =~= tree.children);
        lemma_same_numbers_in(tree.children, w, next as nat);
    }
    let ghost before = named_views(out@);
    match data.node_type {
        NodeType::Foot => {
            let one = NamedFeatures { name: "foot".to_owned(), features: given_map(&data.top) };
            let ghost view = (one.name@, one.features@);
            out.push(one);
            proof {
                let own = node_attributes(tree.label, w, k as nat)->Ok_0;
                assert(own =~= seq![view]);
                assert(named_views(out@) =~= before.push(view));
                assert(named_views(out@) =~= known + (below + own));
            }
            Ok(k)
        },
        NodeType::Substitution => {
            let id = joined("n", decimal_text(k).as_str());
            let one = NamedFeatures { name: id, features: given_map(&data.top) };
            let ghost view = (one.name@, one.features@);
            out.push(one);
            proof {
                let own = node_attributes(tree.label, w, k as nat)->Ok_0;
                assert(own =~= seq![view]);
                assert(named_views(out@) =~= before.push(view));
                assert(named_views(out@) =~= known + (below + own));
            }
            Ok(k + 1)
        },
        _ => {
            let id = joined("n", decimal_text(k).as_str());
            let top_name = joined(id.as_str(), "t");
            let bottom_name = joined(id.as_str(), "b");
            let mut bottom = given_map(&data.bottom);
            if let NodeType::Head = data.node_type {
                let ghost plain = bottom@;
                match bottom.merge(word) {
                    Ok(m) => {
                        proof {
                            features::lemma_merge_unique(
                                plain,
                                w,
                                Ok(m@),
                                features::merge_of(plain, w),
                            );
                        }
                        bottom = m;
                    },
                    Err(e) => {
                        proof {
                            features::lemma_merge_unique(
                                plain,
                                w,
                                Err(e@),
                                features::merge_of(plain, w),
                            );
                        }
                        return Err(ImageError::Clash(e));
                    },
                }
            }
            let upper = NamedFeatures { name: top_name, features: given_map(&data.top) };
            let lower = NamedFeatures { name: bottom_name, features: bottom };
            let ghost first = (upper.name@, upper.features@);
            let ghost second = (lower.name@, lower.features@);
            out.push(upper);
            out.push(lower);
            proof {
                let own = node_attributes(tree.label, w, k as nat)->Ok_0;
                assert(own =~= seq![first, second]);
                assert(named_views(out@) =~= before.push(first).push(second));
                assert(named_views(out@) =~= known + (below + own));
            }
            Ok(k + 1)
        },
    }
}

/// Writes out a feature map.
fn write_features(f: &FeatureMap) -> (s: String)
    ensures
        s@ == feature_literal(f@),
{
    let entries = f.entries();
    let mut fields: Vec<String> = Vec::new();
    let mut i: usize = 0;
    while i < entries.len()
        invariant
            i <= entries@.len(),
            fields@.len() == i,
            features::entry_views(entries@) == f@,
            forall|j: int|
                0 <= j < i ==> (#[trigger] fields@[j])@ == f@[j].0 + ": "@ + atom_literal(f@[j].1),
        decreases entries@.len() - i,
    {
        let entry = &entries[i];
        assert(f@[i as int] == entry@);
        let mut field = joined(entry.attribute.as_str(), ": ");
        match &entry.value {
            FeatureAtom::Constant(s) => {
                field.append(s.as_str());
            },
            FeatureAtom::Variable(s) => {
                let marked = joined("#", s.as_str());
                field.append(marked.as_str());
            },
        }
        fields.push(field);
        i += 1;
    }
    assert(text::texts(fields@) =~= feature_fields(f@));
    let mut s = joined("[", separate(&fields, ", ").as_str());
    s.append("]");
    s
}

/// Writes out the feature structure of a lexicalized elementary tree.
fn core_feature_literal(tree: &ElementaryTree, word: &FeatureMap) -> (r: Result<
    String,
    ImageError,
>)
    requires
        tree.wf(),
    ensures
        match r {
            Ok(s) => core_literal(tree@, word@) == Ok::<Seq<char>, ImageFault>(s@),
            Err(e) => core_literal(tree@, word@) == Err::<Seq<char>, ImageFault>(e@),
        },
{
    let ghost t = tree@;
    proof {
        lemma_variable_nodes_bound(t, 1);
        label_tree::lemma_tree_children(
            syntax::arena_models(tree.arena),
            arena::tree_number(tree.root),
        );
    }
    let mut maps: Vec<NamedFeatures> = Vec::new();
    let ghost none = named_views(maps@);
    let next: usize = collect_attributes(&tree.arena, tree.root, word, 1, &mut maps)?;
    let ghost list = attributes(t, word@, 1)->Ok_0.0;
    proof {
        assert(none =~= Seq::empty());
        assert(none + list =~= list);
        lemma_same_numbers(t, word@, 1);
        lemma_variable_node_grows(t, 1);
    }
    let data = tag_label(&tree.arena, tree.root);
    assert(data@ == t.label);
    match data.node_type {
        NodeType::Foot => {
            return Err(ImageError::RootNotOrdinary);
        },
        NodeType::Substitution => {
            return Err(ImageError::RootNotOrdinary);
        },
        _ => {},
    }
    let number = decimal_text(next - 1);
    let id = joined("n", number.as_str());
    let root = joined(id.as_str(), "t");
    let mut fields: Vec<String> = Vec::new();
    let mut i: usize = 0;
    while i < maps.len()
        invariant
            i <= maps@.len(),
            fields@.len() == i,
            named_views(maps@) == list,
            forall|j: int| 0 <= j < i ==> (#[trigger] fields@[j])@ == attribute_field(list[j], root@),
        decreases maps@.len() - i,
    {
        let attribute = &maps[i];
        assert(list[i as int] == (attribute.name@, attribute.features@));
        let mut field = joined(attribute.name.as_str(), ": ");
        let value = write_features(&attribute.features);
        if same_text(&attribute.name, &root) {
            let marked = joined("#__root ", value.as_str());
            field.append(marked.as_str());
        } else {
            field.append(value.as_str());
        }
        fields.push(field);
        i += 1;
    }
    proof {
        assert(text::texts(fields@) =~= attribute_fields(list, root@));
    }
    let ghost before = text::texts(fields@);
    fields.push("root: #__root".to_owned());
    assert(text::texts(fields@) =~= before.push("root: #__root"@));
    let mut s = joined("[", separate(&fields, ", ").as_str());
    s.append("]");
    Ok(s)
}

fn convert_features(
    t: &AstHomTerm,
    child_states: &Vec<String>,
    child_nodes: &Vec<String>,
    core: &String,
) -> (r: Result<AstHomTerm, ImageError>)
    ensures
        match r {
            Ok(u) => feature_image(
                t@,
                text::texts(child_states@),
                text::texts(child_nodes@),
                core@,
            ) == Ok::<HomAst, ImageFault>(u@),
            Err(e) => feature_image(
                t@,
                text::texts(child_states@),
                text::texts(child_nodes@),
                core@,
            ) == Err::<HomAst, ImageFault>(e@),
        },
    decreases t,
{
    let ghost states = text::texts(child_states@);
    let ghost nodes = text::texts(child_nodes@);
    match t {
        AstHomTerm::Variable(v) => {
            let variable: usize = *v;
            if variable >= 1 && variable <= child_nodes.len() && variable <= child_states.len() {
                let node = &child_nodes[variable - 1];
                let again = AstHomTerm::Variable(variable);
                assert(states[variable - 1] == child_states@[variable - 1]@);
                assert(nodes[variable - 1] == node@);
                if images::is_substitution(&child_states[variable - 1]) {
                    let label = joined("emb_", node.as_str());
                    Ok(unary(label, unary("proj_root".to_owned(), again)))
                } else {
                    let mut label = joined("remap_root=", node.as_str());
                    label.append("t,foot=");
                    label.append(node.as_str());
                    label.append("b");
                    Ok(unary(label, again))
                }
            } else {
                Err(ImageError::InvalidVariable(variable))
            }
        },
        AstHomTerm::Symbol(label, children) => {
            let ghost kids = alto_ast::hom_asts(children@);
            proof {
                alto_ast::lemma_hom_symbol(*label, *children);
            }
            let n: usize = children.len();
            if n == 0 {
                if is_text(label, "*") {
                    return Ok(leaf("[]".to_owned()));
                }
                return Ok(leaf(core.clone()));
            }
            let mut converted: Vec<AstHomTerm> = Vec::new();
            let mut i: usize = 0;
            while i < n
                invariant
                    i <= n,
                    n == children@.len(),
                    kids == alto_ast::hom_asts(children@),
                    t@ == HomAst::Symbol(label@, kids),
                    *t == AstHomTerm::Symbol(*label, *children),
                    kids.len() > 0,
                    states == text::texts(child_states@),
                    nodes == text::texts(child_nodes@),
                    converted@.len() == i,
                    forall|j: int|
                        0 <= j < i ==> feature_image(kids[j], states, nodes, core@) == Ok::<
                            HomAst,
                            ImageFault,
                        >((#[trigger] converted@[j])@),
                decreases n - i,
            {
                proof {
                    assert(kids[i as int] == children@[i as int]@);
                    assert(decreases_to!(t => *children));
                    assert(decreases_to!(*children => children@));
                    assert(decreases_to!(children@ => children@[i as int]));
                }
                match convert_features(&children[i], child_states, child_nodes, core) {
                    Ok(u) => {
                        converted.push(u);
                    },
                    Err(e) => {
                        proof {
                            assert forall|j: int| 0 <= j < i implies feature_image(
                                #[trigger] kids[j],
                                states,
                                nodes,
                                core@,
                            ) is Ok by {
                                assert(feature_image(kids[j], states, nodes, core@) == Ok::<
                                    HomAst,
                                    ImageFault,
                                >(converted@[j]@));
                            }
                            lemma_first_failure(kids, states, nodes, core@, i as int);
                        }
                        return Err(e);
                    },
                }
                i += 1;
            }
            let ghost all = converted@;
            let mut result = AstHomTerm::Variable(0);
            let mut rest: usize = n;
            while rest > 0
                invariant
                    rest <= n,
                    n == kids.len(),
                    n > 0,
                    converted@ == all.take(rest as int),
                    all.len() == n,
                    forall|j: int|
                        0 <= j < n ==> feature_image(kids[j], states, nodes, core@) == Ok::<
                            HomAst,
                            ImageFault,
                        >((#[trigger] all[j])@),
                    feature_images(kids.skip(rest as int), states, nodes, core@) == Ok::<
                        HomAst,
                        ImageFault,
                    >(result@),
                decreases rest,
            {
                let popped = converted.pop();
                assert(popped is Some);
                if let Some(first) = popped {
                    proof {
                        let k = rest - 1;
                        assert(first == all[k]);
                        assert(converted@ =~= all.take(k));
                        let tail = kids.skip(k);
                        assert(tail[0] == kids[k]);
                        assert(tail.skip(1) =~= kids.skip(rest as int));
                        assert(feature_image(kids[k], states, nodes, core@) == Ok::<
                            HomAst,
                            ImageFault,
                        >(all[k]@));
                    }
                    if rest == n {
                        result = first;
                    } else {
                        result = binary("unify".to_owned(), result, first);
                    }
                }
                rest -= 1;
            }
            assert(kids.skip(0) =~= kids);
            Ok(result)
        },
    }
}

/// The first failure among trees is the failure of the list.
proof fn lemma_first_failure(
    ts: Seq<HomAst>,
    states: Seq<Seq<char>>,
    nodes: Seq<Seq<char>>,
    core: Seq<char>,
    i: int,
)
    requires
        0 <= i < ts.len(),
        forall|j: int|
            0 <= j < i ==> feature_image(#[trigger] ts[j], states, nodes, core) is Ok,
        feature_image(ts[i], states, nodes, core) is Err,
    ensures
        feature_images(ts, states, nodes, core) == Err::<HomAst, ImageFault>(
            feature_image(ts[i], states, nodes, core)->Err_0,
        ),
    decreases ts.len(),
{
    if i > 0 {
        let tail = ts.skip(1);
        assert(feature_image(ts[0], states, nodes, core) is Ok);
        assert forall|j: int| 0 <= j < i - 1 implies feature_image(
            #[trigger] tail[j],
            states,
            nodes,
            core,
        ) is Ok by {
            assert(tail[j] == ts[j + 1]);
        }
        assert(tail[i - 1] == ts[i]);
        lemma_first_failure(tail, states, nodes, core, i - 1);
    }
}

/// The feature image of a lexicalized elementary tree with the given tree image.
pub open spec fn feature_term_of(
    t: TagTree,
    image: HomAst,
    states: Seq<Seq<char>>,
    word: Features,
) -> Result<HomAst, ImageFault> {
    match core_literal(t, word) {
        Ok(core) => feature_image(image, states, variable_nodes(t, 1).0, core),
        Err(e) => Err(e),
    }
}

/// Builds the feature image of a lexicalized elementary tree.
pub fn feature_term(
    tree: &ElementaryTree,
    tree_term: &AstHomTerm,
    child_states: &Vec<String>,
    word: &FeatureMap,
) -> (r: Result<AstHomTerm, ImageError>)
    requires
        tree.wf(),
    ensures
        match r {
            Ok(t) => feature_term_of(
                tree@,
                tree_term@,
                text::texts(child_states@),
                word@,
            ) == Ok::<HomAst, ImageFault>(t@),
            Err(e) => feature_term_of(
                tree@,
                tree_term@,
                text::texts(child_states@),
                word@,
            ) == Err::<HomAst, ImageFault>(e@),
        },
{
    proof {
        lemma_variable_nodes_bound(tree@, 1);
    }
    let mut child_nodes: Vec<String> = Vec::new();
    let ghost none = text::texts(child_nodes@);
    let _ = collect_variable_nodes(&tree.arena, tree.root, 1, &mut child_nodes);
    proof {
        assert(none =~= Seq::empty());
        assert(none + variable_nodes(tree@, 1).0 =~= variable_nodes(tree@, 1).0);
    }
    let core = core_feature_literal(tree, word)?;
    convert_features(tree_term, child_states, &child_nodes, &core)
}

/// There is a variable for each named node: the tree image gives a state to exactly
/// the nodes that variables stand for.
pub proof fn lemma_variables_match(t: TagTree, word: Seq<char>, states: Seq<Seq<char>>, k: nat)
    ensures
        images::tree_image(t, word, states).1.len() == states.len() + variable_nodes(
            t,
            k,
        ).0.len(),
    decreases t,
{
    lemma_variables_match_in(t.children, word, states, k);
}

pub proof fn lemma_variables_match_in(
    ts: Seq<TagTree>,
    word: Seq<char>,
    states: Seq<Seq<char>>,
    k: nat,
)
    ensures
        images::tree_images(ts, word, states).1.len() == states.len() + variable_nodes_in(
            ts,
            k,
        ).0.len(),
    decreases ts,
{
    if ts.len() > 0 {
        lemma_variables_match_in(ts.drop_last(), word, states, k);
        lemma_variables_match(
            ts.last(),
            word,
            images::tree_images(ts.drop_last(), word, states).1,
            variable_nodes_in(ts.drop_last(), k).1,
        );
    }
}

} // verus!
