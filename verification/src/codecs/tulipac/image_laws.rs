//! How the images of a lexicalized elementary tree relate to the tree and to each other.
use crate::alto_ast;
use crate::alto_ast::HomAst;
use crate::codecs::tulipac::feature_images;
use crate::codecs::tulipac::feature_laws;
use crate::codecs::tulipac::images;
use crate::codecs::tulipac::syntax::{NodeModel, NodeType, TagTree};
use vstd::prelude::*;

verus! {

/// The state of what is put in at a node: trees with its label are substituted, or are
/// adjoined.
pub open spec fn state_for(n: NodeModel) -> Seq<char> {
    if n.node_type == NodeType::Substitution {
        n.label + "_S"@
    } else {
        n.label + "_A"@
    }
}

/// A node with something adjoined there, unless that is forbidden: then just the node.
pub open spec fn is_adjoined(h: HomAst, n: NodeModel, v: nat, inner: HomAst) -> bool {
    if n.no_adjunction {
        h == inner
    } else {
        h matches HomAst::Symbol(label, kids) && label == "@"@ && kids.len() == 2 && (kids[0] matches HomAst::Variable(
            u,
        ) && u == v) && kids[1] == inner
    }
}

/// Whether a tree image pictures a tree around a word, when `from` variables were used
/// before: a substitution node is its variable, a foot the hole, a head the word below its
/// label, and any other node its children below its label. Labels carry the number of
/// children. The variables count the nodes that take a tree, children before parents.
pub open spec fn pictures(h: HomAst, t: TagTree, word: Seq<char>, from: nat) -> bool
    decreases t,
{
    let n = t.label;
    let below = feature_laws::post_orders(t.children);
    let v = from + feature_laws::taking(below, below.len() as int) + 1;
    match n.node_type {
        NodeType::Substitution => h matches HomAst::Variable(u) && u == v,
        NodeType::Foot => h == HomAst::Symbol("*"@, Seq::empty()),
        NodeType::Head => is_adjoined(
            h,
            n,
            v,
            HomAst::Symbol(n.label + "_1"@, seq![HomAst::Symbol(word, Seq::empty())]),
        ),
        NodeType::Default => exists|kids: Seq<HomAst>|
            #![trigger is_adjoined(
                h,
                n,
                v,
                HomAst::Symbol(n.label + "_"@ + alto_ast::decimal(kids.len()), kids),
            )]
            is_adjoined(
                h,
                n,
                v,
                HomAst::Symbol(n.label + "_"@ + alto_ast::decimal(kids.len()), kids),
            ) && all_pictured(kids, t.children, word, from),
    }
}

/// Whether images picture trees, one after the other.
pub open spec fn all_pictured(
    kids: Seq<HomAst>,
    ts: Seq<TagTree>,
    word: Seq<char>,
    from: nat,
) -> bool
    decreases ts,
{
    &&& kids.len() == ts.len()
    &&& ts.len() == 0 || {
        let front = feature_laws::post_orders(ts.drop_last());
        &&& all_pictured(kids.drop_last(), ts.drop_last(), word, from)
        &&& pictures(
            kids.last(),
            ts.last(),
            word,
            from + feature_laws::taking(front, front.len() as int),
        )
    }
}

/// The states of variables after the given ones, in the order of the nodes that take a tree.
pub open spec fn states_follow(
    before: Seq<Seq<char>>,
    after: Seq<Seq<char>>,
    nodes: Seq<NodeModel>,
) -> bool {
    &&& before.is_prefix_of(after)
    &&& after.len() == before.len() + feature_laws::taking(nodes, nodes.len() as int)
    &&& forall|i: int|
        0 <= i < nodes.len() && feature_laws::takes_tree(#[trigger] nodes[i]) ==> after[(
        before.len() + feature_laws::taking(nodes, i)) as int] == state_for(nodes[i])
}

proof fn lemma_states_add(
    x: Seq<Seq<char>>,
    y: Seq<Seq<char>>,
    z: Seq<Seq<char>>,
    a: Seq<NodeModel>,
    b: Seq<NodeModel>,
)
    requires
        states_follow(x, y, a),
        states_follow(y, z, b),
    ensures
        states_follow(x, z, a + b),
{
    let c = a + b;
    feature_laws::lemma_numbered_add(a, b, c.len() as int);
    if b.len() == 0 {
        assert(c =~= a);
        assert(feature_laws::taking(b, 0) == 0);
    }
    assert forall|i: int| 0 <= i < c.len() && feature_laws::takes_tree(#[trigger] c[i]) implies z[(
    x.len() + feature_laws::taking(c, i)) as int] == state_for(c[i]) by {
        feature_laws::lemma_numbered_add(a, b, i);
        if i < a.len() {
            assert(c[i] == a[i]);
            feature_laws::lemma_numbered_grows(a, i, a.len() as int);
            let k = (x.len() + feature_laws::taking(a, i)) as int;
            assert(z[k] == y[k]);
        } else {
            let j = i - a.len();
            assert(c[i] == b[j]);
            if j == 0 {
                assert(feature_laws::taking(b, 0) == 0);
            }
            assert(z[(y.len() + feature_laws::taking(b, j)) as int] == state_for(b[j]));
        }
    }
}

/// The tree image of a tree pictures it.
proof fn lemma_pictured(t: TagTree, word: Seq<char>, states: Seq<Seq<char>>)
    requires
        states.len() + feature_laws::post_order(t).len() <= usize::MAX,
    ensures
        pictures(images::tree_image(t, word, states).0, t, word, states.len()),
        states_follow(
            states,
            images::tree_image(t, word, states).1,
            feature_laws::post_order(t),
        ),
    decreases t,
{
    let n = t.label;
    let below = feature_laws::post_orders(t.children);
    let own = seq![n];
    let all = feature_laws::post_order(t);
    assert(all =~= below + own);
    lemma_all_pictured(t.children, word, states);
    feature_laws::lemma_taking_bound(below, below.len() as int);
    let (kids, now) = images::tree_images(t.children, word, states);
    let (h, after) = images::tree_image(t, word, states);
    let v = states.len() + feature_laws::taking(below, below.len() as int) + 1;
    assert(now.len() + 1 == v);
    reveal_strlit("_");
    reveal_strlit("_1");
    assert(own[0] == n);
    assert(feature_laws::taking(own, 0) == 0);
    assert(feature_laws::taking(own, 1) == (if feature_laws::takes_tree(n) {
        1nat
    } else {
        0nat
    }));
    assert(states_follow(now, after, own)) by {
        if feature_laws::takes_tree(n) {
            assert(after =~= now.push(state_for(n)));
        } else {
            assert(after =~= now);
        }
    }
    lemma_states_add(states, now, after, below, own);
    match n.node_type {
        NodeType::Head => {
            let only = seq![HomAst::Symbol(word, Seq::empty())];
            assert(alto_ast::decimal(1) =~= seq!['1']) by {
                assert(alto_ast::digit_char(1) == '1');
            }
            assert(n.label + "_"@ + alto_ast::decimal(1) =~= n.label + "_1"@);
            assert(is_adjoined(h, n, v, HomAst::Symbol(n.label + "_1"@, only)));
        },
        NodeType::Default => {
            assert(is_adjoined(
                h,
                n,
                v,
                HomAst::Symbol(n.label + "_"@ + alto_ast::decimal(kids.len()), kids),
            ));
        },
        _ => {},
    }
}

proof fn lemma_all_pictured(ts: Seq<TagTree>, word: Seq<char>, states: Seq<Seq<char>>)
    requires
        states.len() + feature_laws::post_orders(ts).len() <= usize::MAX,
    ensures
        all_pictured(images::tree_images(ts, word, states).0, ts, word, states.len()),
        states_follow(
            states,
            images::tree_images(ts, word, states).1,
            feature_laws::post_orders(ts),
        ),
    decreases ts,
{
    if ts.len() > 0 {
        let front = feature_laws::post_orders(ts.drop_last());
        let last = feature_laws::post_order(ts.last());
        lemma_all_pictured(ts.drop_last(), word, states);
        let (kids, now) = images::tree_images(ts.drop_last(), word, states);
        feature_laws::lemma_taking_bound(front, front.len() as int);
        lemma_pictured(ts.last(), word, now);
        let (k, after) = images::tree_image(ts.last(), word, now);
        lemma_states_add(states, now, after, front, last);
        assert(kids.push(k).drop_last() =~= kids);
    }
}

/// The tree image of a lexicalized elementary tree pictures the tree, and its variables get
/// the states of the nodes that they stand for.
pub proof fn law_tree_images_picture_trees(t: TagTree, word: Seq<char>)
    requires
        feature_laws::post_order(t).len() <= usize::MAX,
    ensures
        pictures(images::tree_image(t, word, Seq::empty()).0, t, word, 0),
        states_follow(
            Seq::empty(),
            images::tree_image(t, word, Seq::empty()).1,
            feature_laws::post_order(t),
        ),
{
    lemma_pictured(t, word, Seq::empty());
}

/// A value of the TAG string algebra: a string, or two with a gap between them.
pub enum Strings {
    One(Seq<Seq<char>>),
    Two(Seq<Seq<char>>, Seq<Seq<char>>),
}

/// Two strings side by side; at most one may have a gap.
pub open spec fn beside(a: Option<Strings>, b: Option<Strings>) -> Option<Strings> {
    match (a, b) {
        (Some(Strings::One(x)), Some(Strings::One(y))) => Some(Strings::One(x + y)),
        (Some(Strings::One(x)), Some(Strings::Two(y, z))) => Some(Strings::Two(x + y, z)),
        (Some(Strings::Two(x, y)), Some(Strings::One(z))) => Some(Strings::Two(x, y + z)),
        _ => None,
    }
}

/// A string in the gap of another.
pub open spec fn around(a: Option<Strings>, b: Option<Strings>) -> Option<Strings> {
    match (a, b) {
        (Some(Strings::Two(x, y)), Some(Strings::One(z))) => Some(Strings::One(x + z + y)),
        (Some(Strings::Two(x, y)), Some(Strings::Two(z, w))) => Some(Strings::Two(x + z, w + y)),
        _ => None,
    }
}

/// The string of a derived tree, read off its leaves from left to right, when variables have
/// the given values: the hole is a gap, and what is adjoined at a node stands around it.
pub open spec fn tree_string(h: HomAst, values: spec_fn(usize) -> Strings) -> Option<Strings>
    decreases h,
{
    match h {
        HomAst::Variable(v) => Some(values(v)),
        HomAst::Symbol(label, kids) => if label == "*"@ {
            Some(Strings::Two(Seq::empty(), Seq::empty()))
        } else if label == "@"@ && kids.len() == 2 {
            around(tree_string(kids[0], values), tree_string(kids[1], values))
        } else if kids.len() == 0 {
            Some(Strings::One(seq![label]))
        } else {
            forest_string(kids, values)
        },
    }
}

/// The string of derived trees, from left to right.
pub open spec fn forest_string(kids: Seq<HomAst>, values: spec_fn(usize) -> Strings) -> Option<
    Strings,
>
    decreases kids,
{
    if kids.len() == 0 {
        Some(Strings::One(Seq::empty()))
    } else {
        beside(forest_string(kids.drop_last(), values), tree_string(kids.last(), values))
    }
}

/// The value of a term of the TAG string algebra, when variables have the given values.
pub open spec fn string_value(s: HomAst, values: spec_fn(usize) -> Strings) -> Option<Strings>
    decreases s,
{
    match s {
        HomAst::Variable(v) => Some(values(v)),
        HomAst::Symbol(label, kids) => if kids.len() == 2 {
            let a = string_value(kids[0], values);
            let b = string_value(kids[1], values);
            if label == "*CONC11*"@ {
                if a is Some && b is Some && a->0 is One && b->0 is One {
                    beside(a, b)
                } else {
                    None
                }
            } else if label == "*CONC12*"@ {
                if a is Some && b is Some && a->0 is One && b->0 is Two {
                    beside(a, b)
                } else {
                    None
                }
            } else if label == "*CONC21*"@ {
                if a is Some && b is Some && a->0 is Two && b->0 is One {
                    beside(a, b)
                } else {
                    None
                }
            } else if label == "*WRAP21*"@ {
                if a is Some && b is Some && a->0 is Two && b->0 is One {
                    around(a, b)
                } else {
                    None
                }
            } else if label == "*WRAP22*"@ {
                if a is Some && b is Some && a->0 is Two && b->0 is Two {
                    around(a, b)
                } else {
                    None
                }
            } else {
                None
            }
        } else if kids.len() == 0 {
            if label == "*EE*"@ {
                Some(Strings::Two(Seq::empty(), Seq::empty()))
            } else {
                Some(Strings::One(seq![label]))
            }
        } else {
            None
        },
    }
}

/// Whether adjunctions have two parts and no word is the name of the empty pair.
pub open spec fn is_shaped(h: HomAst) -> bool
    decreases h,
{
    match h {
        HomAst::Variable(_) => true,
        HomAst::Symbol(label, kids) => {
            &&& label == "@"@ ==> kids.len() == 2
            &&& label != "*EE*"@
            &&& forall|i: int| 0 <= i < kids.len() ==> is_shaped(#[trigger] kids[i])
        },
    }
}

/// Whether a state ends in `_S`: trees of the state are substituted.
pub open spec fn is_substituted(state: Seq<char>) -> bool {
    state.len() >= 2 && state.skip(state.len() - 2) == "_S"@
}

/// Whether variables with substituted trees are strings and the others have a gap.
pub open spec fn values_fit(states: Seq<Seq<char>>, values: spec_fn(usize) -> Strings) -> bool {
    forall|v: usize|
        1 <= v <= states.len() ==> ((#[trigger] values(v)) is One <==> is_substituted(
            states[v - 1],
        ))
}

proof fn lemma_beside_associative(a: Option<Strings>, b: Option<Strings>, c: Option<Strings>)
    ensures
        beside(beside(a, b), c) == beside(a, beside(b, c)),
{
    match (a, b, c) {
        (Some(Strings::One(x)), Some(Strings::One(y)), Some(Strings::One(z))) => {
            assert(x + y + z =~= x + (y + z));
        },
        (Some(Strings::One(x)), Some(Strings::One(y)), Some(Strings::Two(z, w))) => {
            assert(x + y + z =~= x + (y + z));
        },
        (Some(Strings::Two(x, y)), Some(Strings::One(z)), Some(Strings::One(w))) => {
            assert(y + z + w =~= y + (z + w));
        },
        _ => {},
    }
}

proof fn lemma_beside_nothing(a: Option<Strings>)
    ensures
        beside(Some(Strings::One(Seq::empty())), a) == a,
        beside(a, Some(Strings::One(Seq::empty()))) == a,
{
    let none = Seq::<Seq<char>>::empty();
    if let Some(s) = a {
        match s {
            Strings::One(x) => {
                assert(none + x =~= x);
                assert(x + none =~= x);
            },
            Strings::Two(x, y) => {
                assert(none + x =~= x);
                assert(y + none =~= y);
            },
        }
    }
}

proof fn lemma_forest_head(kids: Seq<HomAst>, values: spec_fn(usize) -> Strings)
    requires
        kids.len() > 0,
    ensures
        forest_string(kids, values) == beside(
            tree_string(kids[0], values),
            forest_string(kids.skip(1), values),
        ),
    decreases kids.len(),
{
    let none = Some(Strings::One(Seq::<Seq<char>>::empty()));
    if kids.len() == 1 {
        assert(kids.drop_last() =~= Seq::empty());
        assert(kids.skip(1) =~= Seq::empty());
        assert(forest_string(kids.drop_last(), values) == none);
        assert(forest_string(kids.skip(1), values) == none);
        lemma_beside_nothing(tree_string(kids[0], values));
    } else {
        lemma_forest_head(kids.drop_last(), values);
        assert(kids.drop_last().skip(1) =~= kids.skip(1).drop_last());
        assert(kids.skip(1).last() == kids.last());
        lemma_beside_associative(
            tree_string(kids[0], values),
            forest_string(kids.skip(1).drop_last(), values),
            tree_string(kids.last(), values),
        );
    }
}

spec fn sort_of(s: Option<Strings>, sort: u8) -> bool {
    match s {
        Some(Strings::One(_)) => sort == 1,
        Some(Strings::Two(_, _)) => sort == 2,
        None => false,
    }
}

proof fn lemma_operation_names()
    ensures
        "*CONC11*"@ != "*CONC12*"@,
        "*CONC11*"@ != "*CONC21*"@,
        "*CONC12*"@ != "*CONC21*"@,
        "*WRAP21*"@ != "*WRAP22*"@,
        "*WRAP21*"@ != "*CONC11*"@,
        "*WRAP21*"@ != "*CONC12*"@,
        "*WRAP21*"@ != "*CONC21*"@,
        "*WRAP22*"@ != "*CONC11*"@,
        "*WRAP22*"@ != "*CONC12*"@,
        "*WRAP22*"@ != "*CONC21*"@,
        "*"@ != "@"@,
{
    reveal_strlit("*CONC11*");
    reveal_strlit("*CONC12*");
    reveal_strlit("*CONC21*");
    reveal_strlit("*WRAP21*");
    reveal_strlit("*WRAP22*");
    reveal_strlit("*");
    reveal_strlit("@");
    assert("*CONC11*"@[6] == '1' && "*CONC12*"@[6] == '2' && "*CONC21*"@[6] == '1');
    assert("*CONC11*"@[5] == '1' && "*CONC12*"@[5] == '1' && "*CONC21*"@[5] == '2');
    assert("*WRAP21*"@[6] == '1' && "*WRAP22*"@[6] == '2');
    assert("*WRAP21*"@[1] == 'W' && "*WRAP22*"@[1] == 'W');
    assert("*CONC11*"@[1] == 'C' && "*CONC12*"@[1] == 'C' && "*CONC21*"@[1] == 'C');
    assert("*"@[0] == '*' && "@"@[0] == '@');
}

/// Strings put together have the value of the strings side by side.
proof fn lemma_concatenation(
    list: Seq<(HomAst, u8)>,
    kids: Seq<HomAst>,
    values: spec_fn(usize) -> Strings,
)
    requires
        list.len() == kids.len(),
        list.len() > 0,
        forall|i: int|
            0 <= i < list.len() ==> string_value((#[trigger] list[i]).0, values) == tree_string(
                kids[i],
                values,
            ) && sort_of(tree_string(kids[i], values), list[i].1),
    ensures
        images::concatenation(list) matches Ok((s, sort)) ==> string_value(s, values)
            == forest_string(kids, values) && sort_of(forest_string(kids, values), sort),
    decreases list.len(),
{
    lemma_forest_head(kids, values);
    lemma_operation_names();
    let first = tree_string(kids[0], values);
    assert(string_value(list[0].0, values) == first && sort_of(first, list[0].1));
    if list.len() == 1 {
        assert(kids.skip(1) =~= Seq::empty());
        assert(forest_string(kids.skip(1), values) == Some(
            Strings::One(Seq::<Seq<char>>::empty()),
        ));
        lemma_beside_nothing(first);
    } else {
        let rest = list.skip(1);
        let others = kids.skip(1);
        assert forall|i: int| 0 <= i < rest.len() implies string_value(
            (#[trigger] rest[i]).0,
            values,
        ) == tree_string(others[i], values) && sort_of(
            tree_string(others[i], values),
            rest[i].1,
        ) by {
            assert(rest[i] == list[i + 1]);
            assert(others[i] == kids[i + 1]);
        }
        lemma_concatenation(rest, others, values);
        if let Ok(right) = images::concatenation(rest) {
            let parts = seq![list[0].0, right.0];
            assert(parts[0] == list[0].0 && parts[1] == right.0);
            if let Ok((s, sort)) = images::concatenated(list[0], right) {
                assert(s->Symbol_1 == parts);
            }
        }
    }
}

/// The string image that belongs to a tree image has, for all values of the variables, the
/// string of the derived tree as its value. The hole is the gap, and a string with a gap is
/// wrapped around what it is adjoined to.
pub proof fn law_string_images_have_the_strings_of_tree_images(
    h: HomAst,
    states: Seq<Seq<char>>,
    values: spec_fn(usize) -> Strings,
)
    requires
        is_shaped(h),
        values_fit(states, values),
    ensures
        images::string_image(h, states) matches Ok((s, sort)) ==> {
            &&& string_value(s, values) == tree_string(h, values)
            &&& tree_string(h, values) is Some
            &&& sort == 1 <==> tree_string(h, values)->0 is One
        },
{
    lemma_string_image(h, states, values);
}

proof fn lemma_string_image(
    h: HomAst,
    states: Seq<Seq<char>>,
    values: spec_fn(usize) -> Strings,
)
    requires
        is_shaped(h),
        values_fit(states, values),
    ensures
        images::string_image(h, states) matches Ok((s, sort)) ==> string_value(s, values)
            == tree_string(h, values) && sort_of(tree_string(h, values), sort),
    decreases h, 0int,
{
    lemma_operation_names();
    match h {
        HomAst::Variable(v) => {
            if 1 <= v <= states.len() {
                let state = states[v - 1];
                reveal_strlit("_S");
                assert(images::substitutes(state) <==> is_substituted(state)) by {
                    if state.len() >= 2 {
                        let end = state.skip(state.len() - 2);
                        assert(end[0] == state[state.len() - 2]);
                        assert(end[1] == state[state.len() - 1]);
                        if images::substitutes(state) {
                            assert(end =~= "_S"@);
                        }
                    }
                }
                assert(values(v) is One <==> is_substituted(state));
            }
        },
        HomAst::Symbol(label, kids) => {
            if label == "*"@ {
                let none = HomAst::Symbol("*EE*"@, Seq::empty());
                assert(none->Symbol_1.len() == 0);
            } else {
                lemma_string_images(h, kids, states, values);
                if let Ok(list) = images::string_images(kids, states) {
                    if label == "@"@ {
                        assert(string_value(list[0].0, values) == tree_string(kids[0], values));
                        assert(string_value(list[1].0, values) == tree_string(kids[1], values));
                        let parts = images::terms_of(list);
                        assert(parts[0] == list[0].0 && parts[1] == list[1].0);
                        if let Ok((s, sort)) = images::wrapped(list) {
                            assert(s->Symbol_1 == parts);
                        }
                    } else if kids.len() > 0 {
                        lemma_concatenation(list, kids, values);
                    }
                }
            }
        },
    }
}

proof fn lemma_string_images(
    whole: HomAst,
    kids: Seq<HomAst>,
    states: Seq<Seq<char>>,
    values: spec_fn(usize) -> Strings,
)
    requires
        whole matches HomAst::Symbol(label, all) && kids.len() <= all.len() && forall|i: int|
            0 <= i < kids.len() ==> kids[i] == #[trigger] all[i],
        is_shaped(whole),
        values_fit(states, values),
    ensures
        images::string_images(kids, states) matches Ok(list) ==> list.len() == kids.len()
            && forall|i: int|
            0 <= i < list.len() ==> string_value((#[trigger] list[i]).0, values) == tree_string(
                kids[i],
                values,
            ) && sort_of(tree_string(kids[i], values), list[i].1),
    decreases whole, 0int, kids.len(),
{
    if kids.len() > 0 {
        let front = kids.drop_last();
        let all = whole->Symbol_1;
        let n = kids.len() - 1;
        assert(kids[n] == all[n]);
        assert forall|i: int| 0 <= i < front.len() implies front[i] == #[trigger] all[i] by {
            assert(kids[i] == all[i]);
        }
        lemma_string_images(whole, front, states, values);
        lemma_string_image(kids.last(), states, values);
        if let Ok(list) = images::string_images(kids, states) {
            let before = images::string_images(front, states)->Ok_0;
            assert forall|i: int| 0 <= i < list.len() implies string_value(
                (#[trigger] list[i]).0,
                values,
            ) == tree_string(kids[i], values) && sort_of(
                tree_string(kids[i], values),
                list[i].1,
            ) by {
                if i < front.len() {
                    assert(list[i] == before[i]);
                    assert(front[i] == kids[i]);
                }
            }
        }
    }
}

/// Whether a term is, or unifies, the given part.
pub open spec fn unifies(t: HomAst, part: HomAst) -> bool
    decreases t,
{
    t == part || (t matches HomAst::Symbol(label, kids) && label == "unify"@ && kids.len() == 2 && (
    unifies(kids[0], part) || unifies(kids[1], part)))
}

/// Whether a term occurs in another.
pub open spec fn occurs(t: HomAst, part: HomAst) -> bool
    decreases t,
{
    t == part || (t matches HomAst::Symbol(label, kids) && exists|i: int|
        0 <= i < kids.len() && occurs(#[trigger] kids[i], part))
}

/// What is made of a variable in a feature image: the root of a substituted tree goes to the
/// node; the root and the foot of an adjoined tree go to the top and the bottom of the node.
pub open spec fn placed(v: usize, state: Seq<char>, name: Seq<char>) -> HomAst {
    if is_substituted(state) {
        HomAst::Symbol(
            "emb_"@ + name,
            seq![HomAst::Symbol("proj_root"@, seq![HomAst::Variable(v)])],
        )
    } else {
        HomAst::Symbol("remap_root="@ + name + "t,foot="@ + name + "b"@, seq![HomAst::Variable(v)])
    }
}

/// A feature image unifies what every variable of the tree image puts at the node that the
/// variable stands for, and the feature structure of the tree for every word.
pub proof fn law_feature_images_unify_every_part(
    h: HomAst,
    states: Seq<Seq<char>>,
    names: Seq<Seq<char>>,
    core: Seq<char>,
)
    ensures
        feature_images::feature_image(h, states, names, core) matches Ok(ft) ==> {
            &&& forall|v: usize|
                #[trigger] occurs(h, HomAst::Variable(v)) ==> 1 <= v <= states.len() && v
                    <= names.len() && unifies(ft, placed(v, states[v - 1], names[v - 1]))
            &&& forall|w: Seq<char>|
                w != "*"@ && #[trigger] occurs(h, HomAst::Symbol(w, Seq::empty())) ==> unifies(
                    ft,
                    HomAst::Symbol(core, Seq::empty()),
                )
        },
    decreases h, 0int,
{
    match h {
        HomAst::Variable(v) => {
            if 1 <= v <= states.len() && v <= names.len() {
                let state = states[v - 1];
                reveal_strlit("_S");
                assert(images::substitutes(state) <==> is_substituted(state)) by {
                    if state.len() >= 2 {
                        let end = state.skip(state.len() - 2);
                        assert(end[0] == state[state.len() - 2]);
                        assert(end[1] == state[state.len() - 1]);
                        if images::substitutes(state) {
                            assert(end =~= "_S"@);
                        }
                    }
                }
            }
            assert forall|u: usize| #[trigger] occurs(h, HomAst::Variable(u)) implies u == v by {}
        },
        HomAst::Symbol(label, kids) => {
            if kids.len() > 0 {
                lemma_feature_images(h, kids, states, names, core);
                if let Ok(ft) = feature_images::feature_images(kids, states, names, core) {
                    assert forall|v: usize| #[trigger] occurs(h, HomAst::Variable(v)) implies 1 <= v
                        <= states.len() && v <= names.len() && unifies(
                        ft,
                        placed(v, states[v - 1], names[v - 1]),
                    ) by {
                        let i = choose|i: int|
                            0 <= i < kids.len() && occurs(#[trigger] kids[i], HomAst::Variable(v));
                        assert(list_occurs(kids, HomAst::Variable(v)));
                    }
                    assert forall|w: Seq<char>|
                        w != "*"@ && #[trigger] occurs(h, HomAst::Symbol(w, Seq::empty())) implies
                        unifies(ft, HomAst::Symbol(core, Seq::empty())) by {
                        let part = HomAst::Symbol(w, Seq::<HomAst>::empty());
                        assert(part->Symbol_1.len() == 0);
                        assert(h != part);
                        let i = choose|i: int| 0 <= i < kids.len() && occurs(#[trigger] kids[i], part);
                        assert(list_occurs(kids, part));
                    }
                }
            } else {
                assert(kids =~= Seq::empty());
                assert forall|w: Seq<char>| #[trigger] occurs(
                    h,
                    HomAst::Symbol(w, Seq::empty()),
                ) implies w == label by {
                    let part = HomAst::Symbol(w, Seq::<HomAst>::empty());
                    assert(part->Symbol_0 == w);
                }
            }
        },
    }
}

spec fn list_occurs(kids: Seq<HomAst>, part: HomAst) -> bool {
    exists|i: int| 0 <= i < kids.len() && occurs(#[trigger] kids[i], part)
}

proof fn lemma_feature_images(
    whole: HomAst,
    kids: Seq<HomAst>,
    states: Seq<Seq<char>>,
    names: Seq<Seq<char>>,
    core: Seq<char>,
)
    requires
        whole matches HomAst::Symbol(label, all) && kids.len() <= all.len() && forall|i: int|
            0 <= i < kids.len() ==> kids[i] == #[trigger] all[all.len() - kids.len() + i],
        kids.len() > 0,
    ensures
        feature_images::feature_images(kids, states, names, core) matches Ok(ft) ==> {
            &&& forall|v: usize|
                #[trigger] list_occurs(kids, HomAst::Variable(v)) ==> 1 <= v <= states.len() && v
                    <= names.len() && unifies(ft, placed(v, states[v - 1], names[v - 1]))
            &&& forall|w: Seq<char>|
                w != "*"@ && #[trigger] list_occurs(kids, HomAst::Symbol(w, Seq::empty()))
                    ==> unifies(ft, HomAst::Symbol(core, Seq::empty()))
        },
    decreases whole, 0int, kids.len(),
{
    let all = whole->Symbol_1;
    let gone = all.len() - kids.len();
    assert(kids[0] == all[gone + 0]);
    assert(decreases_to!(whole => all));
    assert(decreases_to!(all => all[gone]));
    law_feature_images_unify_every_part(kids[0], states, names, core);
    let rest = kids.skip(1);
    if let Ok(ft) = feature_images::feature_images(kids, states, names, core) {
        let first = feature_images::feature_image(kids[0], states, names, core)->Ok_0;
        if kids.len() > 1 {
            assert forall|i: int| 0 <= i < rest.len() implies rest[i] == #[trigger] all[all.len()
                - rest.len() + i] by {
                assert(kids[i + 1] == all[gone + (i + 1)]);
            }
            lemma_feature_images(whole, rest, states, names, core);
            let others = feature_images::feature_images(rest, states, names, core)->Ok_0;
            let both = seq![others, first];
            assert(ft == HomAst::Symbol("unify"@, both));
            assert(both[0] == others && both[1] == first);
            assert forall|p: HomAst| #[trigger] unifies(first, p) implies unifies(ft, p) by {
                assert(ft->Symbol_1 == both);
            }
            assert forall|p: HomAst| #[trigger] unifies(others, p) implies unifies(ft, p) by {
                assert(ft->Symbol_1 == both);
            }
        }
        assert forall|v: usize| #[trigger] list_occurs(kids, HomAst::Variable(v)) implies 1 <= v
            <= states.len() && v <= names.len() && unifies(
            ft,
            placed(v, states[v - 1], names[v - 1]),
        ) by {
            lemma_list_occurs(kids, HomAst::Variable(v));
        }
        assert forall|w: Seq<char>|
            w != "*"@ && #[trigger] list_occurs(kids, HomAst::Symbol(w, Seq::empty())) implies
            unifies(ft, HomAst::Symbol(core, Seq::empty())) by {
            lemma_list_occurs(kids, HomAst::Symbol(w, Seq::empty()));
        }
    }
}

proof fn lemma_list_occurs(kids: Seq<HomAst>, part: HomAst)
    requires
        list_occurs(kids, part),
    ensures
        occurs(kids[0], part) || list_occurs(kids.skip(1), part),
{
    let i = choose|i: int| 0 <= i < kids.len() && occurs(#[trigger] kids[i], part);
    if i > 0 {
        assert(occurs(kids.skip(1)[i - 1], part));
    }
}

/// The name that a variable of a feature image goes by is the name under which the feature
/// structure has the node: variables count the nodes that take a tree, names those that are
/// no feet, both in the same order.
pub proof fn law_variables_go_by_the_names_of_nodes(t: TagTree)
    ensures
        feature_images::variable_nodes(t, 1).0.len() == feature_laws::taking(
            feature_laws::post_order(t),
            feature_laws::post_order(t).len() as int,
        ),
        forall|i: int|
            0 <= i < feature_laws::post_order(t).len() && feature_laws::takes_tree(
                #[trigger] feature_laws::post_order(t)[i],
            ) ==> feature_images::variable_nodes(t, 1).0[feature_laws::taking(
                feature_laws::post_order(t),
                i,
            ) as int] == feature_laws::name_of(feature_laws::post_order(t), i),
{
    let nodes = feature_laws::post_order(t);
    lemma_variable_nodes(t, 1);
    reveal(nth_name);
    assert forall|i: int|
        0 <= i < nodes.len() && feature_laws::takes_tree(#[trigger] nodes[i]) implies
        feature_images::variable_nodes(t, 1).0[feature_laws::taking(nodes, i) as int]
        == feature_laws::name_of(nodes, i) by {
        assert(name_follows(feature_images::variable_nodes(t, 1).0, nodes, 1, i));
    }
}

#[verifier::opaque]
spec fn nth_name(k: nat) -> Seq<char> {
    "n"@ + alto_ast::decimal(k)
}

spec fn names_follow(names: Seq<Seq<char>>, nodes: Seq<NodeModel>, k: nat) -> bool {
    &&& names.len() == feature_laws::taking(nodes, nodes.len() as int)
    &&& forall|i: int| 0 <= i < nodes.len() ==> #[trigger] name_follows(names, nodes, k, i)
}

spec fn name_follows(names: Seq<Seq<char>>, nodes: Seq<NodeModel>, k: nat, i: int) -> bool {
    feature_laws::takes_tree(nodes[i]) ==> names[feature_laws::taking(nodes, i) as int] == nth_name(
        k + feature_laws::numbered(nodes, i),
    )
}

proof fn lemma_name_left(
    x: Seq<Seq<char>>,
    y: Seq<Seq<char>>,
    a: Seq<NodeModel>,
    b: Seq<NodeModel>,
    k: nat,
    i: int,
)
    requires
        x.len() == feature_laws::taking(a, a.len() as int),
        0 <= i < a.len(),
        name_follows(x, a, k, i),
    ensures
        name_follows(x + y, a + b, k, i),
{
    feature_laws::lemma_numbered_add(a, b, i);
    feature_laws::lemma_numbered_grows(a, i, a.len() as int);
    assert((a + b)[i] == a[i]);
    if feature_laws::takes_tree(a[i]) {
        let p = feature_laws::taking(a, i) as int;
        assert((x + y)[p] == x[p]);
    }
}

proof fn lemma_name_right(
    x: Seq<Seq<char>>,
    y: Seq<Seq<char>>,
    a: Seq<NodeModel>,
    b: Seq<NodeModel>,
    k: nat,
    j: int,
)
    requires
        x.len() == feature_laws::taking(a, a.len() as int),
        y.len() == feature_laws::taking(b, b.len() as int),
        0 <= j < b.len(),
        name_follows(y, b, k + feature_laws::numbered(a, a.len() as int), j),
    ensures
        name_follows(x + y, a + b, k, a.len() + j),
{
    feature_laws::lemma_numbered_add(a, b, a.len() + j);
    feature_laws::lemma_numbered_grows(b, j, b.len() as int);
    assert(feature_laws::taking(b, 0) == 0 && feature_laws::numbered(b, 0) == 0);
    assert((a + b)[a.len() + j] == b[j]);
    if feature_laws::takes_tree(b[j]) {
        let p = feature_laws::taking(b, j) as int;
        assert((x + y)[x.len() + p] == y[p]);
    }
}

proof fn lemma_names_add(
    x: Seq<Seq<char>>,
    y: Seq<Seq<char>>,
    a: Seq<NodeModel>,
    b: Seq<NodeModel>,
    k: nat,
)
    requires
        names_follow(x, a, k),
        names_follow(y, b, k + feature_laws::numbered(a, a.len() as int)),
    ensures
        names_follow(x + y, a + b, k),
{
    feature_laws::lemma_numbered_add(a, b, (a + b).len() as int);
    assert(feature_laws::taking(b, 0) == 0);
    assert forall|i: int| 0 <= i < (a + b).len() implies #[trigger] name_follows(
        x + y,
        a + b,
        k,
        i,
    ) by {
        if i < a.len() {
            assert(name_follows(x, a, k, i));
            lemma_name_left(x, y, a, b, k, i);
        } else {
            assert(name_follows(
                y,
                b,
                k + feature_laws::numbered(a, a.len() as int),
                i - a.len(),
            ));
            lemma_name_right(x, y, a, b, k, i - a.len());
        }
    }
}

proof fn lemma_variable_nodes(t: TagTree, k: nat)
    ensures
        names_follow(
            feature_images::variable_nodes(t, k).0,
            feature_laws::post_order(t),
            k,
        ),
        feature_images::variable_nodes(t, k).1 == k + feature_laws::numbered(
            feature_laws::post_order(t),
            feature_laws::post_order(t).len() as int,
        ),
    decreases t,
{
    let below = feature_laws::post_orders(t.children);
    let own = seq![t.label];
    let all = feature_laws::post_order(t);
    assert(all =~= below + own);
    lemma_variable_nodes_in(t.children, k);
    feature_laws::lemma_numbered_add(below, own, all.len() as int);
    assert(own[0] == t.label);
    assert(feature_laws::numbered(own, 0) == 0 && feature_laws::taking(own, 0) == 0);
    assert(feature_laws::numbered(own, 1) == (if t.label.node_type == NodeType::Foot {
        0nat
    } else {
        1nat
    }));
    assert(feature_laws::taking(own, 1) == (if feature_laws::takes_tree(t.label) {
        1nat
    } else {
        0nat
    }));
    let (names, next) = feature_images::variable_nodes_in(t.children, k);
    let more = if feature_laws::takes_tree(t.label) {
        seq![nth_name(next)]
    } else {
        Seq::empty()
    };
    reveal(nth_name);
    assert(names_follow(more, own, next));
    lemma_names_add(names, more, below, own, k);
    assert(feature_images::variable_nodes(t, k).0 =~= names + more);
}

proof fn lemma_variable_nodes_in(ts: Seq<TagTree>, k: nat)
    ensures
        names_follow(
            feature_images::variable_nodes_in(ts, k).0,
            feature_laws::post_orders(ts),
            k,
        ),
        feature_images::variable_nodes_in(ts, k).1 == k + feature_laws::numbered(
            feature_laws::post_orders(ts),
            feature_laws::post_orders(ts).len() as int,
        ),
    decreases ts,
{
    if ts.len() > 0 {
        let front = feature_laws::post_orders(ts.drop_last());
        let last = feature_laws::post_order(ts.last());
        lemma_variable_nodes_in(ts.drop_last(), k);
        let (x, next) = feature_images::variable_nodes_in(ts.drop_last(), k);
        lemma_variable_nodes(ts.last(), next);
        let (y, more) = feature_images::variable_nodes(ts.last(), next);
        lemma_names_add(x, y, front, last, k);
        feature_laws::lemma_numbered_add(front, last, (front + last).len() as int);
        assert(last.len() > 0);
    }
}

/// Whether heads, feet and substitution nodes have no children.
pub open spec fn is_plain(t: TagTree) -> bool
    decreases t,
{
    &&& t.label.node_type == NodeType::Default || t.children.len() == 0
    &&& forall|i: int| 0 <= i < t.children.len() ==> is_plain(#[trigger] t.children[i])
}

spec fn variable_occurs(h: HomAst, nodes: Seq<NodeModel>, i: int, from: nat) -> bool {
    occurs(h, HomAst::Variable((from + feature_laws::taking(nodes, i) + 1) as usize))
}

spec fn variable_listed(kids: Seq<HomAst>, nodes: Seq<NodeModel>, i: int, from: nat) -> bool {
    list_occurs(kids, HomAst::Variable((from + feature_laws::taking(nodes, i) + 1) as usize))
}

proof fn lemma_below_occurs(n: NodeModel, kids: Seq<HomAst>, states: Seq<Seq<char>>, part: HomAst)
    requires
        list_occurs(kids, part),
    ensures
        occurs(images::ordinary(n, kids, states).0, part),
{
    let node = HomAst::Symbol(n.label + "_"@ + alto_ast::decimal(kids.len()), kids);
    let c = choose|c: int| 0 <= c < kids.len() && occurs(#[trigger] kids[c], part);
    assert(node->Symbol_1 == kids);
    assert(occurs(node, part));
    let now = states.push(images::adjunction_state(n.label));
    let both = seq![HomAst::Variable(now.len() as usize), node];
    let whole = HomAst::Symbol("@"@, both);
    assert(whole->Symbol_1 == both);
    assert(both[1] == node);
    assert(occurs(whole, part));
}

proof fn lemma_all_occur(t: TagTree, word: Seq<char>, states: Seq<Seq<char>>)
    requires
        is_plain(t),
        states.len() + feature_laws::post_order(t).len() < usize::MAX,
    ensures
        forall|i: int|
            0 <= i < feature_laws::post_order(t).len() && feature_laws::takes_tree(
                #[trigger] feature_laws::post_order(t)[i],
            ) ==> variable_occurs(
                images::tree_image(t, word, states).0,
                feature_laws::post_order(t),
                i,
                states.len(),
            ),
        forall|i: int|
            0 <= i < feature_laws::post_order(t).len() && (#[trigger] feature_laws::post_order(
                t,
            )[i]).node_type == NodeType::Head ==> occurs(
                images::tree_image(t, word, states).0,
                HomAst::Symbol(word, Seq::empty()),
            ),
    decreases t,
{
    let n = t.label;
    let nodes = feature_laws::post_order(t);
    let below = feature_laws::post_orders(t.children);
    let own = seq![n];
    assert(nodes =~= below + own);
    let (kids, now) = images::tree_images(t.children, word, states);
    let h = images::tree_image(t, word, states).0;
    let w = HomAst::Symbol(word, Seq::<HomAst>::empty());
    lemma_all_listed(t, t.children, word, states);
    lemma_all_pictured(t.children, word, states);
    feature_laws::lemma_taking_bound(below, below.len() as int);
    if n.node_type != NodeType::Default {
        assert(below.len() == 0);
    }
    assert forall|i: int|
        0 <= i < nodes.len() && feature_laws::takes_tree(#[trigger] nodes[i]) implies
        variable_occurs(h, nodes, i, states.len()) by {
        feature_laws::lemma_numbered_add(below, own, i);
        if i < below.len() {
            assert(nodes[i] == below[i]);
            assert(variable_listed(kids, below, i, states.len()));
            lemma_below_occurs(
                n,
                kids,
                now,
                HomAst::Variable(
                    (states.len() + feature_laws::taking(below, i) + 1) as usize,
                ),
            );
        } else {
            assert(nodes[i] == n);
            assert(now.len() == states.len() + feature_laws::taking(nodes, i));
            let v = HomAst::Variable((now.len() + 1) as usize);
            if n.node_type != NodeType::Substitution {
                let both = h->Symbol_1;
                assert(both[0] == v);
                assert(occurs(both[0], v));
                assert(occurs(h, v));
            }
        }
    }
    assert forall|i: int|
        0 <= i < nodes.len() && (#[trigger] nodes[i]).node_type == NodeType::Head implies occurs(
        h,
        w,
    ) by {
        if i < below.len() {
            assert(nodes[i] == below[i]);
            lemma_below_occurs(n, kids, now, w);
        } else {
            let only = seq![w];
            assert(only[0] == w);
            assert(occurs(only[0], w));
            assert(list_occurs(only, w));
            lemma_below_occurs(n, only, now, w);
        }
    }
}

proof fn lemma_all_listed(
    whole: TagTree,
    ts: Seq<TagTree>,
    word: Seq<char>,
    states: Seq<Seq<char>>,
)
    requires
        is_plain(whole),
        ts.len() <= whole.children.len(),
        forall|i: int| 0 <= i < ts.len() ==> ts[i] == #[trigger] whole.children[i],
        states.len() + feature_laws::post_orders(ts).len() < usize::MAX,
    ensures
        forall|i: int|
            0 <= i < feature_laws::post_orders(ts).len() && feature_laws::takes_tree(
                #[trigger] feature_laws::post_orders(ts)[i],
            ) ==> variable_listed(
                images::tree_images(ts, word, states).0,
                feature_laws::post_orders(ts),
                i,
                states.len(),
            ),
        forall|i: int|
            0 <= i < feature_laws::post_orders(ts).len() && (#[trigger] feature_laws::post_orders(
                ts,
            )[i]).node_type == NodeType::Head ==> list_occurs(
                images::tree_images(ts, word, states).0,
                HomAst::Symbol(word, Seq::empty()),
            ),
    decreases whole, ts.len(),
{
    if ts.len() > 0 {
        let front = ts.drop_last();
        let m = ts.len() - 1;
        let a = feature_laws::post_orders(front);
        let b = feature_laws::post_order(ts.last());
        let nodes = feature_laws::post_orders(ts);
        assert(nodes == a + b);
        assert forall|i: int| 0 <= i < front.len() implies front[i] == #[trigger] whole.children[i] by {
            assert(ts[i] == whole.children[i]);
        }
        assert(ts[m] == whole.children[m]);
        lemma_all_listed(whole, front, word, states);
        lemma_all_pictured(front, word, states);
        feature_laws::lemma_taking_bound(a, a.len() as int);
        let (some, now) = images::tree_images(front, word, states);
        lemma_all_occur(ts.last(), word, now);
        let last = images::tree_image(ts.last(), word, now).0;
        let kids = images::tree_images(ts, word, states).0;
        assert(kids == some.push(last));
        let w = HomAst::Symbol(word, Seq::<HomAst>::empty());
        assert forall|p: HomAst| #[trigger] list_occurs(some, p) implies list_occurs(kids, p) by {
            let c = choose|c: int| 0 <= c < some.len() && occurs(#[trigger] some[c], p);
            assert(kids[c] == some[c]);
        }
        assert forall|p: HomAst| #[trigger] occurs(last, p) implies list_occurs(kids, p) by {
            assert(kids[some.len() as int] == last);
        }
        assert forall|i: int|
            0 <= i < nodes.len() && feature_laws::takes_tree(#[trigger] nodes[i]) implies
            variable_listed(kids, nodes, i, states.len()) by {
            feature_laws::lemma_numbered_add(a, b, i);
            if i < a.len() {
                assert(nodes[i] == a[i]);
                assert(variable_listed(some, a, i, states.len()));
            } else {
                let j = i - a.len();
                assert(nodes[i] == b[j]);
                assert(feature_laws::taking(b, 0) == 0);
                assert(variable_occurs(last, b, j, now.len()));
            }
        }
        assert forall|i: int|
            0 <= i < nodes.len() && (#[trigger] nodes[i]).node_type == NodeType::Head implies
            list_occurs(kids, w) by {
            if i < a.len() {
                assert(nodes[i] == a[i]);
            } else {
                assert(nodes[i] == b[i - a.len()]);
            }
        }
    }
}

/// In the tree image of a tree whose heads, feet and substitution nodes are leaves every
/// variable occurs, and so does the word where the tree has a head.
pub proof fn law_every_variable_occurs(t: TagTree, word: Seq<char>)
    requires
        is_plain(t),
        feature_laws::post_order(t).len() < usize::MAX,
    ensures
        forall|i: int|
            0 <= i < feature_laws::post_order(t).len() && feature_laws::takes_tree(
                #[trigger] feature_laws::post_order(t)[i],
            ) ==> occurs(
                images::tree_image(t, word, Seq::empty()).0,
                HomAst::Variable(
                    (feature_laws::taking(feature_laws::post_order(t), i) + 1) as usize,
                ),
            ),
        forall|i: int|
            0 <= i < feature_laws::post_order(t).len() && (#[trigger] feature_laws::post_order(
                t,
            )[i]).node_type == NodeType::Head ==> occurs(
                images::tree_image(t, word, Seq::empty()).0,
                HomAst::Symbol(word, Seq::empty()),
            ),
{
    lemma_all_occur(t, word, Seq::empty());
    let nodes = feature_laws::post_order(t);
    assert forall|i: int|
        0 <= i < nodes.len() && feature_laws::takes_tree(#[trigger] nodes[i]) implies occurs(
        images::tree_image(t, word, Seq::empty()).0,
        HomAst::Variable((feature_laws::taking(nodes, i) + 1) as usize),
    ) by {
        assert(variable_occurs(
            images::tree_image(t, word, Seq::empty()).0,
            nodes,
            i,
            Seq::<Seq<char>>::empty().len(),
        ));
    }
}

} // verus!
