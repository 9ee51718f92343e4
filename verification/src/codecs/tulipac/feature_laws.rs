//! What the feature image of a lexicalized elementary tree says of the nodes of the tree.
use crate::alto_ast;
use crate::codecs::tulipac::feature_images;
use crate::codecs::tulipac::features;
use crate::codecs::tulipac::features::{AtomModel, Features};
use crate::codecs::tulipac::lexicon_laws;
use crate::codecs::tulipac::syntax::{NodeModel, NodeType, TagTree};
use vstd::prelude::*;

verus! {

/// The nodes of a tree, children before parents and from left to right.
pub open spec fn post_order(t: TagTree) -> Seq<NodeModel>
    decreases t,
{
    post_orders(t.children).push(t.label)
}

/// The nodes of trees, one tree after the other.
pub open spec fn post_orders(ts: Seq<TagTree>) -> Seq<NodeModel>
    decreases ts,
{
    if ts.len() == 0 {
        Seq::empty()
    } else {
        post_orders(ts.drop_last()) + post_order(ts.last())
    }
}

/// How many of the first `i` nodes are no feet.
pub open spec fn numbered(nodes: Seq<NodeModel>, i: int) -> nat
    decreases i,
{
    if i <= 0 {
        0
    } else if nodes[i - 1].node_type == NodeType::Foot {
        numbered(nodes, i - 1)
    } else {
        numbered(nodes, i - 1) + 1
    }
}

/// Whether something is put in at a node: a tree is substituted there or may be adjoined.
pub open spec fn takes_tree(n: NodeModel) -> bool {
    match n.node_type {
        NodeType::Substitution => true,
        NodeType::Foot => false,
        NodeType::Default => !n.no_adjunction,
        NodeType::Head => !n.no_adjunction,
    }
}

/// How many of the first `i` nodes take a tree.
pub open spec fn taking(nodes: Seq<NodeModel>, i: int) -> nat
    decreases i,
{
    if i <= 0 {
        0
    } else if takes_tree(nodes[i - 1]) {
        taking(nodes, i - 1) + 1
    } else {
        taking(nodes, i - 1)
    }
}

/// The name of node `i`, where the first node that is no foot is `n1`.
pub open spec fn name_of(nodes: Seq<NodeModel>, i: int) -> Seq<char> {
    "n"@ + alto_ast::decimal(numbered(nodes, i) + 1)
}

/// What a bracket says; nothing where there is none.
pub open spec fn bracket(f: Option<Features>) -> Features {
    match f {
        Some(m) => m,
        None => Seq::empty(),
    }
}

/// One feature written out: variables have a mark.
pub open spec fn pair_text(p: (Seq<char>, AtomModel)) -> Seq<char> {
    match p.1 {
        AtomModel::Constant(s) => p.0 + ": "@ + s,
        AtomModel::Variable(s) => p.0 + ": #"@ + s,
    }
}

/// Features written out, each once and in order.
pub open spec fn pairs_text(f: Features) -> Seq<char>
    decreases f.len(),
{
    if f.len() == 0 {
        Seq::empty()
    } else if f.len() == 1 {
        pair_text(f[0])
    } else {
        pair_text(f[0]) + ", "@ + pairs_text(f.skip(1))
    }
}

/// A field of a feature structure: a name with features.
pub open spec fn field_text(name: Seq<char>, f: Features) -> Seq<char> {
    name + ": ["@ + pairs_text(f) + "]"@
}

/// The field that is the root of a feature structure.
pub open spec fn root_field_text(name: Seq<char>, f: Features) -> Seq<char> {
    name + ": #__root ["@ + pairs_text(f) + "]"@
}

/// Whether a text has a field between `before` and `after`.
pub open spec fn splits(
    text: Seq<char>,
    before: Seq<char>,
    field: Seq<char>,
    after: Seq<char>,
) -> bool {
    &&& text == before + field + after
    &&& before == "["@ || (before.len() > 2 && before.skip(before.len() - 2) == ", "@)
    &&& after.len() > 2 && after.take(2) == ", "@
}

/// Whether the text of a feature structure has a field, between the bracket or another field
/// and another field.
pub open spec fn has_field(text: Seq<char>, field: Seq<char>) -> bool {
    exists|before: Seq<char>, after: Seq<char>| #[trigger] splits(text, before, field, after)
}

/// Whether the text has a field that unites the bottom features of a head with those of the
/// word.
pub open spec fn has_united_field(
    text: Seq<char>,
    name: Seq<char>,
    bottom: Features,
    word: Features,
) -> bool {
    exists|c: Features|
        lexicon_laws::unites(bottom, word, c) && #[trigger] has_field(text, field_text(name, c))
}

/// Whether the text of a feature structure describes node `i` of a tree: a foot and a
/// substitution node by its first bracket; any other by its first bracket on top and the
/// second at the bottom, to which a head adds the features of the word.
pub open spec fn describes_node(
    text: Seq<char>,
    nodes: Seq<NodeModel>,
    i: int,
    word: Features,
) -> bool {
    let n = nodes[i];
    let name = name_of(nodes, i);
    let top = if i == nodes.len() - 1 {
        root_field_text(name + "t"@, bracket(n.top))
    } else {
        field_text(name + "t"@, bracket(n.top))
    };
    match n.node_type {
        NodeType::Foot => has_field(text, field_text("foot"@, bracket(n.top))),
        NodeType::Substitution => has_field(text, field_text(name, bracket(n.top))),
        NodeType::Default => has_field(text, top) && has_field(
            text,
            field_text(name + "b"@, bracket(n.bottom)),
        ),
        NodeType::Head => has_field(text, top) && has_united_field(
            text,
            name + "b"@,
            bracket(n.bottom),
            word,
        ),
    }
}

/// Whether the brackets of nodes are feature maps: attributes increase.
pub open spec fn brackets_valid(nodes: Seq<NodeModel>) -> bool {
    forall|i: int|
        0 <= i < nodes.len() ==> features::sorted_features(bracket((#[trigger] nodes[i]).top))
            && features::sorted_features(bracket(nodes[i].bottom))
}

/// Whether a head contradicts the word.
pub open spec fn head_clashes(nodes: Seq<NodeModel>, word: Features) -> bool {
    exists|i: int|
        0 <= i < nodes.len() && (#[trigger] nodes[i]).node_type == NodeType::Head
            && lexicon_laws::clash(bracket(nodes[i].bottom), word)
}

/// Whether the list of named features has what a node says.
spec fn lists_node(
    list: Seq<(Seq<char>, Features)>,
    n: NodeModel,
    name: Seq<char>,
    word: Features,
) -> bool {
    match n.node_type {
        NodeType::Foot => list.contains(("foot"@, bracket(n.top))),
        NodeType::Substitution => list.contains((name, bracket(n.top))),
        NodeType::Default => list.contains((name + "t"@, bracket(n.top))) && list.contains(
            (name + "b"@, bracket(n.bottom)),
        ),
        NodeType::Head => list.contains((name + "t"@, bracket(n.top))) && exists|c: Features|
            lexicon_laws::unites(bracket(n.bottom), word, c) && #[trigger] list.contains(
                (name + "b"@, c),
            ),
    }
}

spec fn name_from(nodes: Seq<NodeModel>, i: int, k: nat) -> Seq<char> {
    "n"@ + alto_ast::decimal(k + numbered(nodes, i))
}

spec fn lists_nodes(
    list: Seq<(Seq<char>, Features)>,
    nodes: Seq<NodeModel>,
    word: Features,
    k: nat,
) -> bool {
    forall|i: int|
        0 <= i < nodes.len() ==> lists_node(
            list,
            #[trigger] nodes[i],
            name_from(nodes, i, k),
            word,
        )
}

proof fn lemma_contains_more(
    list: Seq<(Seq<char>, Features)>,
    a: Seq<(Seq<char>, Features)>,
    b: Seq<(Seq<char>, Features)>,
    x: (Seq<char>, Features),
)
    requires
        list.contains(x),
    ensures
        (a + list + b).contains(x),
{
    let i = choose|i: int| 0 <= i < list.len() && list[i] == x;
    assert((a + list + b)[a.len() + i] == x);
}

proof fn lemma_lists_more(
    list: Seq<(Seq<char>, Features)>,
    a: Seq<(Seq<char>, Features)>,
    b: Seq<(Seq<char>, Features)>,
    n: NodeModel,
    name: Seq<char>,
    word: Features,
)
    requires
        lists_node(list, n, name, word),
    ensures
        lists_node(a + list + b, n, name, word),
{
    match n.node_type {
        NodeType::Foot => {
            lemma_contains_more(list, a, b, ("foot"@, bracket(n.top)));
        },
        NodeType::Substitution => {
            lemma_contains_more(list, a, b, (name, bracket(n.top)));
        },
        NodeType::Default => {
            lemma_contains_more(list, a, b, (name + "t"@, bracket(n.top)));
            lemma_contains_more(list, a, b, (name + "b"@, bracket(n.bottom)));
        },
        NodeType::Head => {
            lemma_contains_more(list, a, b, (name + "t"@, bracket(n.top)));
            let c = choose|c: Features|
                lexicon_laws::unites(bracket(n.bottom), word, c) && #[trigger] list.contains(
                    (name + "b"@, c),
                );
            lemma_contains_more(list, a, b, (name + "b"@, c));
        },
    }
}

pub proof fn lemma_numbered_add(a: Seq<NodeModel>, b: Seq<NodeModel>, i: int)
    requires
        0 <= i <= a.len() + b.len(),
    ensures
        i <= a.len() ==> numbered(a + b, i) == numbered(a, i),
        i > a.len() ==> numbered(a + b, i) == numbered(a, a.len() as int) + numbered(
            b,
            i - a.len(),
        ),
        i <= a.len() ==> taking(a + b, i) == taking(a, i),
        i > a.len() ==> taking(a + b, i) == taking(a, a.len() as int) + taking(b, i - a.len()),
    decreases i,
{
    if i > 0 {
        lemma_numbered_add(a, b, i - 1);
        if i <= a.len() {
            assert((a + b)[i - 1] == a[i - 1]);
        } else {
            assert((a + b)[i - 1] == b[i - 1 - a.len()]);
            assert(numbered(b, 0) == 0 && taking(b, 0) == 0);
        }
    }
}

proof fn lemma_valid_parts(a: Seq<NodeModel>, b: Seq<NodeModel>)
    requires
        brackets_valid(a + b),
    ensures
        brackets_valid(a),
        brackets_valid(b),
{
    assert forall|i: int| 0 <= i < a.len() implies features::sorted_features(
        bracket((#[trigger] a[i]).top),
    ) && features::sorted_features(bracket(a[i].bottom)) by {
        assert((a + b)[i] == a[i]);
    }
    assert forall|i: int| 0 <= i < b.len() implies features::sorted_features(
        bracket((#[trigger] b[i]).top),
    ) && features::sorted_features(bracket(b[i].bottom)) by {
        assert((a + b)[a.len() + i] == b[i]);
    }
}

proof fn lemma_clash_parts(a: Seq<NodeModel>, b: Seq<NodeModel>, word: Features)
    ensures
        head_clashes(a + b, word) <==> (head_clashes(a, word) || head_clashes(b, word)),
{
    let c = a + b;
    if head_clashes(a, word) {
        let i = choose|i: int|
            0 <= i < a.len() && (#[trigger] a[i]).node_type == NodeType::Head
                && lexicon_laws::clash(bracket(a[i].bottom), word);
        assert(c[i] == a[i]);
    }
    if head_clashes(b, word) {
        let i = choose|i: int|
            0 <= i < b.len() && (#[trigger] b[i]).node_type == NodeType::Head
                && lexicon_laws::clash(bracket(b[i].bottom), word);
        assert(c[a.len() + i] == b[i]);
    }
    if head_clashes(c, word) {
        let i = choose|i: int|
            0 <= i < c.len() && (#[trigger] c[i]).node_type == NodeType::Head
                && lexicon_laws::clash(bracket(c[i].bottom), word);
        if i < a.len() {
            assert(c[i] == a[i]);
        } else {
            assert(c[i] == b[i - a.len()]);
        }
    }
}

proof fn lemma_lists_add(
    x: Seq<(Seq<char>, Features)>,
    y: Seq<(Seq<char>, Features)>,
    a: Seq<NodeModel>,
    b: Seq<NodeModel>,
    word: Features,
    k: nat,
)
    requires
        lists_nodes(x, a, word, k),
        lists_nodes(y, b, word, k + numbered(a, a.len() as int)),
    ensures
        lists_nodes(x + y, a + b, word, k),
{
    assert forall|i: int| 0 <= i < (a + b).len() implies lists_node(
        x + y,
        #[trigger] (a + b)[i],
        name_from(a + b, i, k),
        word,
    ) by {
        lemma_numbered_add(a, b, i);
        if i < a.len() {
            assert((a + b)[i] == a[i]);
            assert(lists_node(x, a[i], name_from(a, i, k), word));
            lemma_lists_more(x, Seq::empty(), y, a[i], name_from(a, i, k), word);
            assert(Seq::<(Seq<char>, Features)>::empty() + x + y =~= x + y);
        } else {
            let j = i - a.len();
            let from = k + numbered(a, a.len() as int);
            assert((a + b)[i] == b[j]);
            assert(lists_node(y, b[j], name_from(b, j, from), word));
            if j == 0 {
                assert(numbered(b, 0) == 0);
            }
            assert(name_from(b, j, from) == name_from(a + b, i, k));
            lemma_lists_more(y, x, Seq::empty(), b[j], name_from(b, j, from), word);
            assert(x + y + Seq::<(Seq<char>, Features)>::empty() =~= x + y);
        }
    }
}

/// The named features of a tree have what its nodes say.
proof fn lemma_attributes(t: TagTree, word: Features, k: nat)
    requires
        brackets_valid(post_order(t)),
        features::sorted_features(word),
    ensures
        feature_images::attributes(t, word, k) is Ok <==> !head_clashes(post_order(t), word),
        feature_images::attributes(t, word, k) matches Ok((list, next)) ==> lists_nodes(
            list,
            post_order(t),
            word,
            k,
        ) && next == k + numbered(post_order(t), post_order(t).len() as int),
    decreases t,
{
    let below = post_orders(t.children);
    let own = seq![t.label];
    let all = post_order(t);
    assert(all =~= below + own);
    lemma_valid_parts(below, own);
    lemma_clash_parts(below, own, word);
    lemma_attributes_in(t.children, word, k);
    lemma_numbered_add(below, own, all.len() as int);
    assert(own[0] == t.label);
    assert(numbered(own, 0) == 0);
    assert(numbered(own, 1) == (if t.label.node_type == NodeType::Foot {
        0nat
    } else {
        1nat
    }));
    if let Ok((list, next)) = feature_images::attributes_in(t.children, word, k) {
        let n = t.label;
        let made = feature_images::node_attributes(n, word, next);
        if n.node_type == NodeType::Head {
            assert(features::sorted_features(bracket(n.bottom)));
            features::lemma_merge_exists(bracket(n.bottom), word);
            lexicon_laws::lemma_sorted_is_single(bracket(n.bottom));
            lexicon_laws::lemma_sorted_is_single(word);
            lexicon_laws::lemma_merged_features(bracket(n.bottom), word);
            if lexicon_laws::clash(bracket(n.bottom), word) {
                assert(own[0].node_type == NodeType::Head);
            }
        }
        assert(head_clashes(own, word) <==> n.node_type == NodeType::Head && lexicon_laws::clash(
            bracket(n.bottom),
            word,
        ));
        if made is Ok {
            let more = made->Ok_0;
            assert forall|i: int| 0 <= i < own.len() implies lists_node(
                more,
                #[trigger] own[i],
                name_from(own, i, next),
                word,
            ) by {
                let name = name_from(own, 0, next);
                match n.node_type {
                    NodeType::Foot => {
                        assert(more[0] == ("foot"@, bracket(n.top)));
                    },
                    NodeType::Substitution => {
                        assert(more[0] == (name, bracket(n.top)));
                    },
                    NodeType::Default => {
                        assert(more[0] == (name + "t"@, bracket(n.top)));
                        assert(more[1] == (name + "b"@, bracket(n.bottom)));
                    },
                    NodeType::Head => {
                        let c = features::merge_of(bracket(n.bottom), word)->Ok_0;
                        assert(more[0] == (name + "t"@, bracket(n.top)));
                        assert(more[1] == (name + "b"@, c));
                        assert(more.contains((name + "b"@, c)));
                    },
                }
            }
            lemma_lists_add(list, more, below, own, word, k);
        }
    }
}

proof fn lemma_attributes_in(ts: Seq<TagTree>, word: Features, k: nat)
    requires
        brackets_valid(post_orders(ts)),
        features::sorted_features(word),
    ensures
        feature_images::attributes_in(ts, word, k) is Ok <==> !head_clashes(post_orders(ts), word),
        feature_images::attributes_in(ts, word, k) matches Ok((list, next)) ==> lists_nodes(
            list,
            post_orders(ts),
            word,
            k,
        ) && next == k + numbered(post_orders(ts), post_orders(ts).len() as int),
    decreases ts,
{
    if ts.len() > 0 {
        let front = post_orders(ts.drop_last());
        let last = post_order(ts.last());
        lemma_valid_parts(front, last);
        lemma_clash_parts(front, last, word);
        lemma_attributes_in(ts.drop_last(), word, k);
        lemma_numbered_add(front, last, (front + last).len() as int);
        assert(last.len() > 0);
        if let Ok((x, next)) = feature_images::attributes_in(ts.drop_last(), word, k) {
            lemma_attributes(ts.last(), word, next);
            if let Ok((y, more)) = feature_images::attributes(ts.last(), word, next) {
                lemma_lists_add(x, y, front, last, word, k);
            }
        }
    }
}

proof fn lemma_separated_head(list: Seq<Seq<char>>, separator: Seq<char>)
    requires
        list.len() >= 2,
    ensures
        feature_images::separated(list, separator) == list[0] + separator
            + feature_images::separated(list.skip(1), separator),
    decreases list.len(),
{
    let front = list.drop_last();
    let rest = list.skip(1);
    if list.len() == 2 {
        assert(front.len() == 1 && front[0] == list[0]);
        assert(rest.len() == 1 && rest[0] == list[1]);
        assert(feature_images::separated(front, separator) == list[0]);
        assert(feature_images::separated(rest, separator) == list[1]);
    } else {
        lemma_separated_head(front, separator);
        assert(front[0] == list[0]);
        assert(rest.drop_last() =~= front.skip(1));
        assert(rest.last() == list.last());
        assert(feature_images::separated(rest, separator) == feature_images::separated(
            rest.drop_last(),
            separator,
        ) + separator + rest.last());
    }
    assert(feature_images::separated(list, separator) =~= list[0] + separator
        + feature_images::separated(rest, separator));
}

/// Any text of a list stands between the others.
proof fn lemma_separated_split(list: Seq<Seq<char>>, separator: Seq<char>, i: int) -> (r: (
    Seq<char>,
    Seq<char>,
))
    requires
        0 <= i < list.len(),
    ensures
        feature_images::separated(list, separator) == r.0 + list[i] + r.1,
        i == 0 ==> r.0.len() == 0,
        i > 0 ==> r.0.len() >= separator.len() && r.0.skip(r.0.len() - separator.len())
            == separator,
        i == list.len() - 1 ==> r.1.len() == 0,
        i < list.len() - 1 ==> r.1.len() >= separator.len() + list.last().len() && r.1.take(
            separator.len() as int,
        ) == separator,
    decreases list.len(),
{
    let whole = feature_images::separated(list, separator);
    if list.len() == 1 {
        let none = Seq::<char>::empty();
        assert(whole =~= none + list[0] + none);
        (none, none)
    } else {
        let front = list.drop_last();
        let tail = separator + list.last();
        if i == list.len() - 1 {
            let before = feature_images::separated(front, separator) + separator;
            let none = Seq::<char>::empty();
            assert(before.skip(before.len() - separator.len()) =~= separator);
            assert(whole =~= before + list[i] + none);
            (before, none)
        } else {
            let (before, after) = lemma_separated_split(front, separator, i);
            let more = after + tail;
            assert(front[i] == list[i]);
            assert(more.take(separator.len() as int) =~= separator) by {
                if i < front.len() - 1 {
                    assert(more.take(separator.len() as int) =~= after.take(
                        separator.len() as int,
                    ));
                } else {
                    assert(more =~= tail);
                }
            }
            assert(whole =~= before + list[i] + more);
            (before, more)
        }
    }
}

proof fn lemma_literal(f: Features)
    ensures
        feature_images::feature_literal(f) == "["@ + pairs_text(f) + "]"@,
{
    lemma_pairs(f);
}

proof fn lemma_pairs(f: Features)
    ensures
        feature_images::separated(feature_images::feature_fields(f), ", "@) == pairs_text(f),
    decreases f.len(),
{
    let fields = feature_images::feature_fields(f);
    if f.len() > 0 {
        reveal_strlit(": ");
        reveal_strlit("#");
        reveal_strlit(": #");
        assert(fields[0] =~= pair_text(f[0]));
        if f.len() > 1 {
            lemma_pairs(f.skip(1));
            lemma_separated_head(fields, ", "@);
            assert(fields.skip(1) =~= feature_images::feature_fields(f.skip(1)));
        }
    }
}

proof fn lemma_names_apart(a: nat, b: nat)
    requires
        a != b,
    ensures
        "n"@ + alto_ast::decimal(a) + "t"@ != "n"@ + alto_ast::decimal(b) + "t"@,
{
    reveal_strlit("n");
    reveal_strlit("t");
    let x = "n"@ + alto_ast::decimal(a) + "t"@;
    let y = "n"@ + alto_ast::decimal(b) + "t"@;
    if x == y {
        assert(x.subrange(1, x.len() - 1) =~= alto_ast::decimal(a));
        assert(y.subrange(1, y.len() - 1) =~= alto_ast::decimal(b));
        alto_ast::law_decimal_reads_back(a);
        alto_ast::law_decimal_reads_back(b);
    }
}

pub proof fn lemma_numbered_grows(nodes: Seq<NodeModel>, i: int, j: int)
    requires
        0 <= i <= j <= nodes.len(),
    ensures
        numbered(nodes, i) <= numbered(nodes, j),
        taking(nodes, i) <= taking(nodes, j),
        i < j && nodes[i].node_type != NodeType::Foot ==> numbered(nodes, i) < numbered(nodes, j),
        i < j && takes_tree(nodes[i]) ==> taking(nodes, i) < taking(nodes, j),
    decreases j - i,
{
    if i < j {
        lemma_numbered_grows(nodes, i, j - 1);
    }
}

/// No more nodes take a tree than there are.
pub proof fn lemma_taking_bound(nodes: Seq<NodeModel>, i: int)
    requires
        0 <= i <= nodes.len(),
    ensures
        taking(nodes, i) <= i,
    decreases i,
{
    if i > 0 {
        lemma_taking_bound(nodes, i - 1);
    }
}

/// A field that is listed is in the text.
proof fn lemma_listed_field(
    list: Seq<(Seq<char>, Features)>,
    root: Seq<char>,
    core: Seq<char>,
    name: Seq<char>,
    f: Features,
)
    requires
        list.contains((name, f)),
        core == "["@ + feature_images::separated(
            feature_images::attribute_fields(list, root).push("root: #__root"@),
            ", "@,
        ) + "]"@,
    ensures
        name != root ==> has_field(core, field_text(name, f)),
        name == root ==> has_field(core, root_field_text(name, f)),
{
    let fields = feature_images::attribute_fields(list, root);
    let all = fields.push("root: #__root"@);
    let i = choose|i: int| 0 <= i < list.len() && list[i] == (name, f);
    let (a, z) = lemma_separated_split(all, ", "@, i);
    lemma_literal(f);
    reveal_strlit("[");
    reveal_strlit("]");
    reveal_strlit(", ");
    reveal_strlit(": ");
    reveal_strlit(": [");
    reveal_strlit("#__root ");
    reveal_strlit(": #__root [");
    reveal_strlit("root: #__root");
    let field = if name == root {
        root_field_text(name, f)
    } else {
        field_text(name, f)
    };
    assert(all[i] == feature_images::attribute_field(list[i], root));
    assert(all[i] =~= field);
    let before = "["@ + a;
    let after = z + "]"@;
    assert(core =~= before + field + after);
    assert(splits(core, before, field, after)) by {
        if i == 0 {
            assert(before =~= "["@);
        } else {
            assert(before.skip(before.len() - 2) =~= a.skip(a.len() - 2));
        }
        assert(after.take(2) =~= z.take(2));
    }
}

/// The feature structure of a lexicalized elementary tree describes every node of the tree:
/// in particular a substitution node has, under its name, just the features of the first
/// bracket that is written after it. There is such a structure just where the root is an
/// ordinary node and no head contradicts the word.
pub proof fn law_features_of_every_node_are_written(t: TagTree, word: Features)
    requires
        brackets_valid(post_order(t)),
        features::sorted_features(word),
    ensures
        feature_images::core_literal(t, word) matches Ok(core) ==> forall|i: int|
            0 <= i < post_order(t).len() ==> #[trigger] describes_node(
                core,
                post_order(t),
                i,
                word,
            ),
        feature_images::core_literal(t, word) is Ok <==> !head_clashes(post_order(t), word)
            && t.label.node_type != NodeType::Foot && t.label.node_type != NodeType::Substitution,
{
    let nodes = post_order(t);
    lemma_attributes(t, word, 1);
    if let Ok(core) = feature_images::core_literal(t, word) {
        let (list, next) = feature_images::attributes(t, word, 1)->Ok_0;
        let last = nodes.len() - 1;
        assert(nodes[last] == t.label);
        assert(numbered(nodes, nodes.len() as int) == numbered(nodes, last) + 1);
        let root = name_of(nodes, last) + "t"@;
        assert((next - 1) as nat == numbered(nodes, last) + 1);
        assert(feature_images::node_name((next - 1) as nat) + "t"@ == root);
        reveal_strlit("n");
        reveal_strlit("t");
        reveal_strlit("b");
        reveal_strlit("foot");
        alto_ast::law_decimal_reads_back(numbered(nodes, last) + 1);
        assert(root[0] == 'n' && root.last() == 't');
        assert forall|i: int| 0 <= i < nodes.len() implies #[trigger] describes_node(
            core,
            nodes,
            i,
            word,
        ) by {
            let n = nodes[i];
            let name = name_of(nodes, i);
            assert(lists_node(list, nodes[i], name_from(nodes, i, 1), word));
            assert(name_from(nodes, i, 1) == name);
            alto_ast::law_decimal_reads_back(numbered(nodes, i) + 1);
            let digits = alto_ast::decimal(numbered(nodes, i) + 1);
            assert(name.last() == digits.last());
            assert('0' <= digits[digits.len() - 1] <= '9');
            match n.node_type {
                NodeType::Foot => {
                    assert("foot"@[0] == 'f');
                    lemma_listed_field(list, root, core, "foot"@, bracket(n.top));
                },
                NodeType::Substitution => {
                    assert(name.last() != 't');
                    lemma_listed_field(list, root, core, name, bracket(n.top));
                },
                _ => {
                    if i < last {
                        lemma_numbered_grows(nodes, i, last);
                        lemma_names_apart(numbered(nodes, i) + 1, numbered(nodes, last) + 1);
                    }
                    lemma_listed_field(list, root, core, name + "t"@, bracket(n.top));
                    assert((name + "b"@).last() == 'b');
                    if n.node_type == NodeType::Head {
                        let c = choose|c: Features|
                            lexicon_laws::unites(bracket(n.bottom), word, c)
                                && #[trigger] list.contains((name + "b"@, c));
                        lemma_listed_field(list, root, core, name + "b"@, c);
                        assert(has_field(core, field_text(name + "b"@, c)));
                    } else {
                        lemma_listed_field(list, root, core, name + "b"@, bracket(n.bottom));
                    }
                },
            }
        }
    }
}

} // verus!
