//! What a compiled grammar has for the trees and words that are declared.
use crate::alto_ast::{HomAst, IrtgAst, RuleAst};
use crate::codecs::tulipac::compile;
use crate::codecs::tulipac::compile::CompileFault;
use crate::codecs::tulipac::feature_images;
use crate::codecs::tulipac::feature_laws;
use crate::codecs::tulipac::features;
use crate::codecs::tulipac::image_laws;
use crate::codecs::tulipac::image_laws::Strings;
use crate::codecs::tulipac::images;
use crate::codecs::tulipac::lexicon;
use crate::codecs::tulipac::lexicon::{EntryModel, LexiconFault};
use crate::codecs::tulipac::lexicon_laws;
use crate::codecs::tulipac::syntax::{DeclModel, NodeModel, NodeType, TagTree};
use vstd::prelude::*;

verus! {

/// Whether a tree is for adjunction: it has a foot.
pub open spec fn has_foot(t: TagTree) -> bool {
    exists|i: int|
        0 <= i < feature_laws::post_order(t).len() && (#[trigger] feature_laws::post_order(
            t,
        )[i]).node_type == NodeType::Foot
}

/// Whether a node of a tree has a bracket.
pub open spec fn has_bracket(t: TagTree) -> bool {
    exists|i: int|
        0 <= i < feature_laws::post_order(t).len() && ((#[trigger] feature_laws::post_order(
            t,
        )[i]).top is Some || feature_laws::post_order(t)[i].bottom is Some)
}

/// Whether a grammar uses features: one of its trees has a bracket. Of trees with the same
/// name the last counts.
pub open spec fn uses_features(d: DeclModel) -> bool {
    exists|k: int|
        #![trigger d.trees[k]]
        lexicon_laws::is_last(d.trees, d.trees[k].0, k) && has_bracket(d.trees[k].1)
}

/// Whether `i` is the place of a node that satisfies a condition.
spec fn node_holds(
    nodes: Seq<NodeModel>,
    holds: spec_fn(NodeModel) -> bool,
    i: int,
) -> bool {
    0 <= i < nodes.len() && holds(nodes[i])
}

proof fn lemma_some_node(t: TagTree, holds: spec_fn(NodeModel) -> bool)
    ensures
        compile::some_node(t, holds) <==> exists|i: int| #[trigger]
            node_holds(feature_laws::post_order(t), holds, i),
    decreases t,
{
    let below = feature_laws::post_orders(t.children);
    let all = feature_laws::post_order(t);
    lemma_some_nodes(t, t.children, holds);
    if holds(t.label) {
        assert(node_holds(all, holds, all.len() - 1));
    }
    if exists|c: int| 0 <= c < t.children.len() && compile::some_node(#[trigger] t.children[c], holds) {
        let i = choose|i: int| #[trigger] node_holds(below, holds, i);
        assert(all[i] == below[i]);
        assert(node_holds(all, holds, i));
    }
    if exists|i: int| #[trigger] node_holds(all, holds, i) {
        let i = choose|i: int| #[trigger] node_holds(all, holds, i);
        if i < below.len() {
            assert(all[i] == below[i]);
            assert(node_holds(below, holds, i));
        }
    }
}

proof fn lemma_some_nodes(whole: TagTree, ts: Seq<TagTree>, holds: spec_fn(NodeModel) -> bool)
    requires
        ts.len() <= whole.children.len(),
        forall|i: int| 0 <= i < ts.len() ==> ts[i] == #[trigger] whole.children[i],
    ensures
        (exists|c: int| 0 <= c < ts.len() && compile::some_node(#[trigger] ts[c], holds)) <==> (
        exists|i: int| #[trigger] node_holds(feature_laws::post_orders(ts), holds, i)),
    decreases whole, ts.len(),
{
    let all = feature_laws::post_orders(ts);
    if ts.len() > 0 {
        let n = ts.len() - 1;
        let front = ts.drop_last();
        let a = feature_laws::post_orders(front);
        let b = feature_laws::post_order(ts.last());
        assert forall|i: int| 0 <= i < front.len() implies front[i] == #[trigger] whole.children[i] by {
            assert(ts[i] == whole.children[i]);
        }
        assert(ts[n] == whole.children[n]);
        lemma_some_nodes(whole, front, holds);
        lemma_some_node(ts.last(), holds);
        if exists|c: int| 0 <= c < ts.len() && compile::some_node(#[trigger] ts[c], holds) {
            let c = choose|c: int| 0 <= c < ts.len() && compile::some_node(#[trigger] ts[c], holds);
            if c < n {
                assert(compile::some_node(front[c], holds));
                let i = choose|i: int| #[trigger] node_holds(a, holds, i);
                assert(all[i] == a[i]);
                assert(node_holds(all, holds, i));
            } else {
                let i = choose|i: int| #[trigger] node_holds(b, holds, i);
                assert(all[a.len() + i] == b[i]);
                assert(node_holds(all, holds, a.len() + i));
            }
        }
        if exists|i: int| #[trigger] node_holds(all, holds, i) {
            let i = choose|i: int| #[trigger] node_holds(all, holds, i);
            if i < a.len() {
                assert(all[i] == a[i]);
                assert(node_holds(a, holds, i));
                let c = choose|c: int|
                    0 <= c < front.len() && compile::some_node(#[trigger] front[c], holds);
                assert(ts[c] == front[c]);
            } else {
                assert(all[i] == b[i - a.len()]);
                assert(node_holds(b, holds, i - a.len()));
                assert(compile::some_node(ts[n], holds));
            }
        }
    }
}

proof fn lemma_foot(t: TagTree)
    ensures
        compile::is_auxiliary(t) <==> has_foot(t),
{
    let holds = |n: NodeModel| n.node_type == NodeType::Foot;
    let nodes = feature_laws::post_order(t);
    lemma_some_node(t, holds);
    if compile::is_auxiliary(t) {
        let i = choose|i: int| #[trigger] node_holds(nodes, holds, i);
        assert(nodes[i].node_type == NodeType::Foot);
    }
    if has_foot(t) {
        let i = choose|i: int|
            0 <= i < nodes.len() && (#[trigger] nodes[i]).node_type == NodeType::Foot;
        assert(node_holds(nodes, holds, i));
    }
}

proof fn lemma_bracket(t: TagTree)
    ensures
        compile::annotated(t) <==> has_bracket(t),
{
    let holds = |n: NodeModel| n.top is Some || n.bottom is Some;
    let nodes = feature_laws::post_order(t);
    lemma_some_node(t, holds);
    if compile::annotated(t) {
        let i = choose|i: int| #[trigger] node_holds(nodes, holds, i);
        assert(nodes[i].top is Some || nodes[i].bottom is Some);
    }
    if has_bracket(t) {
        let i = choose|i: int|
            0 <= i < nodes.len() && ((#[trigger] nodes[i]).top is Some || nodes[i].bottom is Some);
        assert(node_holds(nodes, holds, i));
    }
}

proof fn lemma_uses(d: DeclModel)
    ensures
        compile::has_features(d) <==> uses_features(d),
{
    if compile::has_features(d) {
        let k = choose|k: int| #[trigger] compile::effective(d, k) && compile::annotated(d.trees[k].1);
        lexicon_laws::lemma_last_named(d.trees, d.trees[k].0);
        lemma_bracket(d.trees[k].1);
    }
    if uses_features(d) {
        let k = choose|k: int|
            #![trigger d.trees[k]]
            lexicon_laws::is_last(d.trees, d.trees[k].0, k) && has_bracket(d.trees[k].1);
        lemma_bracket(d.trees[k].1);
        lexicon_laws::lemma_last_named(d.trees, d.trees[k].0);
        let j = lexicon::last_named(d.trees, d.trees[k].0)->0;
        lexicon_laws::lemma_last_unique(d.trees, d.trees[k].0, k, j);
        assert(compile::effective(d, k));
    }
}

/// Whether a rule has an image in the named interpretation.
pub open spec fn has_hom(rule: RuleAst, name: Seq<char>, h: HomAst) -> bool {
    rule.homs.contains((name, h))
}

/// The states of the children of a rule.
pub open spec fn child_names(rule: RuleAst) -> Seq<Seq<char>> {
    Seq::new(rule.children.len(), |i: int| rule.children[i].0)
}

/// Whether a string image has, for all values of the variables, the string of the derived
/// tree.
pub open spec fn spells_tree(s: HomAst, h: HomAst, states: Seq<Seq<char>>) -> bool {
    image_laws::is_shaped(h) ==> forall|values: spec_fn(usize) -> Strings| #[trigger]
        image_laws::values_fit(states, values) ==> image_laws::string_value(s, values)
            == image_laws::tree_string(h, values)
}

/// Whether a feature image describes a tree with the features of a word: it unifies what every
/// variable of the tree image puts at its node and, where the tree has a word, a feature
/// structure that describes every node.
pub open spec fn describes_tree(
    ft: HomAst,
    h: HomAst,
    t: TagTree,
    word: features::Features,
    states: Seq<Seq<char>>,
) -> bool {
    let nodes = feature_laws::post_order(t);
    &&& exists|core: Seq<char>| #[trigger]
        describes_all(core, nodes, word) && unifies_core(ft, h, core)
    &&& forall|i: int|
        0 <= i < nodes.len() && feature_laws::takes_tree(#[trigger] nodes[i]) ==> {
            let v = (feature_laws::taking(nodes, i) + 1) as usize;
            image_laws::occurs(h, HomAst::Variable(v)) ==> image_laws::unifies(
                ft,
                image_laws::placed(v, states[v - 1], feature_laws::name_of(nodes, i)),
            )
        }
}

/// Whether the text of a feature structure describes all nodes of a tree.
pub open spec fn describes_all(
    core: Seq<char>,
    nodes: Seq<NodeModel>,
    word: features::Features,
) -> bool {
    forall|i: int|
        0 <= i < nodes.len() ==> #[trigger] feature_laws::describes_node(core, nodes, i, word)
}

/// Whether a feature image unifies a feature structure wherever the tree image has a word.
pub open spec fn unifies_core(ft: HomAst, h: HomAst, core: Seq<char>) -> bool {
    forall|w: Seq<char>|
        w != "*"@ && #[trigger] image_laws::occurs(h, HomAst::Symbol(w, Seq::empty()))
            ==> image_laws::unifies(ft, HomAst::Symbol(core, Seq::empty()))
}

/// Whether a rule says what a word with an elementary tree says.
pub open spec fn says_entry(rule: RuleAst, t: TagTree, e: EntryModel, with_features: bool) -> bool {
    &&& rule.parent == t.label.label + (if has_foot(t) {
        "_A"@
    } else {
        "_S"@
    })
    &&& rule.is_final <==> rule.parent == "S_S"@
    &&& rule.weight is None
    &&& lexicon_laws::is_named_after(rule, e.tree, e.word)
    &&& image_laws::states_follow(
        Seq::empty(),
        child_names(rule),
        feature_laws::post_order(t),
    )
    &&& forall|i: int| 0 <= i < rule.children.len() ==> !(#[trigger] rule.children[i]).1
    &&& rule.homs.len() == (if with_features {
        3nat
    } else {
        2nat
    })
    &&& exists|h: HomAst, s: HomAst|
        #![trigger has_hom(rule, "tree"@, h), has_hom(rule, "string"@, s)]
        {
            &&& has_hom(rule, "tree"@, h)
            &&& has_hom(rule, "string"@, s)
            &&& image_laws::pictures(h, t, e.word, 0)
            &&& spells_tree(s, h, child_names(rule))
            &&& with_features ==> has_feature_image(rule, h, t, e.features)
        }
}

/// Whether a rule has a feature image that describes its tree.
pub open spec fn has_feature_image(
    rule: RuleAst,
    h: HomAst,
    t: TagTree,
    word: features::Features,
) -> bool {
    exists|ft: HomAst| #[trigger]
        has_hom(rule, "ft"@, ft) && describes_tree(ft, h, t, word, child_names(rule))
}

proof fn lemma_entry_rule(e: EntryModel, t: TagTree, with_features: bool, rule: RuleAst)
    requires
        compile::entry_rule(e, t, with_features) == Ok::<RuleAst, images::ImageFault>(rule),
        feature_laws::post_order(t).len() < usize::MAX,
        feature_laws::brackets_valid(feature_laws::post_order(t)),
        features::sorted_features(e.features),
    ensures
        says_entry(rule, t, e, with_features),
{
    let nodes = feature_laws::post_order(t);
    let (h, states) = images::tree_image(t, e.word, Seq::empty());
    let s = images::string_image(h, states)->Ok_0.0;
    lemma_foot(t);
    image_laws::law_tree_images_picture_trees(t, e.word);
    assert(child_names(rule) =~= states);
    let head = e.tree + "-"@ + e.word;
    let tail = lexicon::safe_text(lexicon::features_word(e.features));
    assert(rule.symbol =~= head + tail);
    assert(rule.homs[0] == ("tree"@, h));
    assert(rule.homs[1] == ("string"@, s));
    assert(has_hom(rule, "tree"@, h));
    assert(has_hom(rule, "string"@, s));
    if image_laws::is_shaped(h) {
        assert forall|values: spec_fn(usize) -> Strings| #[trigger]
            image_laws::values_fit(states, values) implies image_laws::string_value(s, values)
            == image_laws::tree_string(h, values) by {
            image_laws::law_string_images_have_the_strings_of_tree_images(h, states, values);
        }
    }
    if with_features {
        let ft = feature_images::feature_term_of(t, h, states, e.features)->Ok_0;
        let core = feature_images::core_literal(t, e.features)->Ok_0;
        let names = feature_images::variable_nodes(t, 1).0;
        assert(rule.homs[2] == ("ft"@, ft));
        assert(has_hom(rule, "ft"@, ft));
        feature_laws::law_features_of_every_node_are_written(t, e.features);
        image_laws::law_feature_images_unify_every_part(h, states, names, core);
        image_laws::law_variables_go_by_the_names_of_nodes(t);
        assert forall|i: int|
            0 <= i < nodes.len() && feature_laws::takes_tree(#[trigger] nodes[i]) implies ({
            let v = (feature_laws::taking(nodes, i) + 1) as usize;
            image_laws::occurs(h, HomAst::Variable(v)) ==> image_laws::unifies(
                ft,
                image_laws::placed(v, states[v - 1], feature_laws::name_of(nodes, i)),
            )
        }) by {
            feature_laws::lemma_taking_bound(nodes, i);
            let v = (feature_laws::taking(nodes, i) + 1) as usize;
            assert(names[v - 1] == feature_laws::name_of(nodes, i));
        }
        assert(describes_all(core, nodes, e.features));
        assert(unifies_core(ft, h, core));
        assert(describes_tree(ft, h, t, e.features, states));
        assert(has_feature_image(rule, h, t, e.features));
    }
}

/// The rules of entries.
proof fn lemma_entry_rules(d: DeclModel, list: Seq<EntryModel>, with_features: bool, i: int)
    requires
        0 <= i < list.len(),
        compile::entry_rules(d, list, with_features) is Ok,
    ensures
        compile::entry_rules(d, list, with_features)->Ok_0.len() == list.len(),
        compile::entry_rule(list[i], compile::tree_of(d, list[i].tree), with_features) == Ok::<
            RuleAst,
            images::ImageFault,
        >(compile::entry_rules(d, list, with_features)->Ok_0[i]),
    decreases list.len(),
{
    let front = list.drop_last();
    lemma_entry_count(d, front, with_features);
    if i < front.len() {
        lemma_entry_rules(d, front, with_features, i);
        assert(front[i] == list[i]);
    }
}

proof fn lemma_entry_count(d: DeclModel, list: Seq<EntryModel>, with_features: bool)
    ensures
        compile::entry_rules(d, list, with_features) matches Ok(rules) ==> rules.len() == list.len(),
    decreases list.len(),
{
    if list.len() > 0 {
        lemma_entry_count(d, list.drop_last(), with_features);
    }
}

/// A compiled grammar has, for each entry of the lexicon, a rule that says what the word and
/// its elementary tree say: the state of the tree's root, the states of the trees that are put
/// in, and images that picture the tree, spell its string and, where the grammar uses
/// features, describe all nodes.
pub proof fn law_rules_say_what_entries_say(
    d: DeclModel,
    g: IrtgAst,
    list: Seq<EntryModel>,
    i: int,
    k: int,
)
    requires
        compile::compiled(d) == Ok::<IrtgAst, CompileFault>(g),
        lexicon::lexicon_of(d) == Ok::<Seq<EntryModel>, LexiconFault>(list),
        0 <= i < list.len(),
        lexicon_laws::is_last(d.trees, list[i].tree, k),
        feature_laws::post_order(d.trees[k].1).len() < usize::MAX,
        feature_laws::brackets_valid(feature_laws::post_order(d.trees[k].1)),
        features::sorted_features(list[i].features),
    ensures
        i < g.rules.len(),
        says_entry(g.rules[i], d.trees[k].1, list[i], uses_features(d)),
{
    let with_features = compile::has_features(d);
    lemma_uses(d);
    lemma_entry_rules(d, list, with_features, i);
    let front = compile::entry_rules(d, list, with_features)->Ok_0;
    lexicon_laws::lemma_last_named(d.trees, list[i].tree);
    let j = lexicon::last_named(d.trees, list[i].tree)->0;
    lexicon_laws::lemma_last_unique(d.trees, list[i].tree, j, k);
    assert(g.rules[i] == front[i]);
    lemma_entry_rule(list[i], d.trees[k].1, with_features, front[i]);
}

/// Whether a rule adjoins nothing at a state.
pub open spec fn adjoins_nothing(rule: RuleAst, state: Seq<char>, with_features: bool) -> bool {
    &&& rule.parent == state
    &&& rule.is_final <==> state == "S_S"@
    &&& rule.symbol == "*NOP*_"@ + state
    &&& rule.children.len() == 0
    &&& rule.weight is None
    &&& has_hom(rule, "tree"@, HomAst::Symbol("*"@, Seq::empty()))
    &&& has_hom(rule, "string"@, HomAst::Symbol("*EE*"@, Seq::empty()))
    &&& with_features ==> has_hom(
        rule,
        "ft"@,
        HomAst::Symbol("[foot: #1 [], root: #1]"@, Seq::empty()),
    )
    &&& rule.homs.len() == (if with_features {
        3nat
    } else {
        2nat
    })
}

/// Whether something may be adjoined in a tree at the given state.
pub open spec fn may_adjoin(t: TagTree, state: Seq<char>) -> bool {
    exists|i: int|
        0 <= i < feature_laws::post_order(t).len() && can_adjoin(
            #[trigger] feature_laws::post_order(t)[i],
            state,
        )
}

/// Whether something may be adjoined at a node, at the given state.
pub open spec fn can_adjoin(n: NodeModel, state: Seq<char>) -> bool {
    &&& n.node_type == NodeType::Default || n.node_type == NodeType::Head
    &&& !n.no_adjunction
    &&& state == n.label + "_A"@
}

proof fn lemma_adjunctions(t: TagTree, state: Seq<char>)
    ensures
        images::adjunctions(t).contains(state) <==> may_adjoin(t, state),
    decreases t,
{
    let below = feature_laws::post_orders(t.children);
    let all = feature_laws::post_order(t);
    lemma_adjunctions_in(t.children, state);
    let list = images::adjunctions_in(t.children);
    lexicon_laws::lemma_push_contains(list, images::adjunction_state(t.label.label), state);
    if images::adjunctions(t).contains(state) {
        if images::adjoins(t.label) && state == images::adjunction_state(t.label.label) {
            assert(can_adjoin(all[all.len() - 1], state));
        } else {
            let i = choose|i: int| 0 <= i < below.len() && can_adjoin(#[trigger] below[i], state);
            assert(all[i] == below[i]);
        }
    }
    if may_adjoin(t, state) {
        let i = choose|i: int| 0 <= i < all.len() && can_adjoin(#[trigger] all[i], state);
        if i < below.len() {
            assert(all[i] == below[i]);
        }
    }
}

proof fn lemma_adjunctions_in(ts: Seq<TagTree>, state: Seq<char>)
    ensures
        images::adjunctions_in(ts).contains(state) <==> exists|i: int|
            0 <= i < feature_laws::post_orders(ts).len() && can_adjoin(
                #[trigger] feature_laws::post_orders(ts)[i],
                state,
            ),
    decreases ts,
{
    if ts.len() > 0 {
        let a = feature_laws::post_orders(ts.drop_last());
        let b = feature_laws::post_order(ts.last());
        let all = feature_laws::post_orders(ts);
        lemma_adjunctions_in(ts.drop_last(), state);
        lemma_adjunctions(ts.last(), state);
        lemma_add_contains(
            images::adjunctions_in(ts.drop_last()),
            images::adjunctions(ts.last()),
            state,
        );
        if exists|i: int| 0 <= i < a.len() && can_adjoin(#[trigger] a[i], state) {
            let i = choose|i: int| 0 <= i < a.len() && can_adjoin(#[trigger] a[i], state);
            assert(all[i] == a[i]);
        }
        if exists|i: int| 0 <= i < b.len() && can_adjoin(#[trigger] b[i], state) {
            let i = choose|i: int| 0 <= i < b.len() && can_adjoin(#[trigger] b[i], state);
            assert(all[a.len() + i] == b[i]);
        }
        if exists|i: int| 0 <= i < all.len() && can_adjoin(#[trigger] all[i], state) {
            let i = choose|i: int| 0 <= i < all.len() && can_adjoin(#[trigger] all[i], state);
            if i < a.len() {
                assert(all[i] == a[i]);
            } else {
                assert(all[i] == b[i - a.len()]);
            }
        }
    }
}

proof fn lemma_add_contains<T>(a: Seq<T>, b: Seq<T>, x: T)
    ensures
        (a + b).contains(x) <==> (a.contains(x) || b.contains(x)),
{
    if a.contains(x) {
        let i = choose|i: int| 0 <= i < a.len() && a[i] == x;
        assert((a + b)[i] == x);
    }
    if b.contains(x) {
        let i = choose|i: int| 0 <= i < b.len() && b[i] == x;
        assert((a + b)[a.len() + i] == x);
    }
    if (a + b).contains(x) {
        let i = choose|i: int| 0 <= i < (a + b).len() && (a + b)[i] == x;
        if i < a.len() {
            assert(a[i] == x);
        } else {
            assert(b[i - a.len()] == x);
        }
    }
}

/// Whether something may be adjoined at the given state in the tree of an entry.
pub open spec fn entry_may_adjoin(d: DeclModel, list: Seq<EntryModel>, state: Seq<char>) -> bool {
    exists|i: int, k: int|
        0 <= i < list.len() && lexicon_laws::is_last(d.trees, (#[trigger] list[i]).tree, k)
            && may_adjoin((#[trigger] d.trees[k]).1, state)
}

proof fn lemma_entry_adjunctions(d: DeclModel, list: Seq<EntryModel>, state: Seq<char>)
    requires
        forall|i: int| 0 <= i < list.len() ==> lexicon::knows_tree(d, (#[trigger] list[i]).tree),
    ensures
        compile::adjunction_states(d, list).contains(state) <==> entry_may_adjoin(d, list, state),
    decreases list.len(),
{
    if list.len() > 0 {
        let front = list.drop_last();
        let n = list.len() - 1;
        assert forall|i: int| 0 <= i < front.len() implies lexicon::knows_tree(
            d,
            (#[trigger] front[i]).tree,
        ) by {
            assert(front[i] == list[i]);
        }
        assert(lexicon::knows_tree(d, list[n].tree));
        lemma_entry_adjunctions(d, front, state);
        lexicon_laws::lemma_last_named(d.trees, list[n].tree);
        let j = lexicon::last_named(d.trees, list[n].tree)->0;
        lemma_adjunctions(d.trees[j].1, state);
        lemma_add_contains(
            compile::adjunction_states(d, front),
            images::adjunctions(compile::tree_of(d, list.last().tree)),
            state,
        );
        if entry_may_adjoin(d, front, state) {
            let (i, k) = choose|i: int, k: int|
                0 <= i < front.len() && lexicon_laws::is_last(
                    d.trees,
                    (#[trigger] front[i]).tree,
                    k,
                ) && may_adjoin((#[trigger] d.trees[k]).1, state);
            assert(list[i] == front[i]);
        }
        if may_adjoin(d.trees[j].1, state) {
            assert(lexicon_laws::is_last(d.trees, list[n].tree, j));
        }
        if entry_may_adjoin(d, list, state) {
            let (i, k) = choose|i: int, k: int|
                0 <= i < list.len() && lexicon_laws::is_last(
                    d.trees,
                    (#[trigger] list[i]).tree,
                    k,
                ) && may_adjoin((#[trigger] d.trees[k]).1, state);
            if i < n {
                assert(front[i] == list[i]);
            } else {
                lexicon_laws::lemma_last_unique(d.trees, list[n].tree, j, k);
            }
        }
    } else {
        assert(compile::adjunction_states(d, list) =~= Seq::empty());
    }
}

/// Whether a grammar has a rule that adjoins nothing at a state.
pub open spec fn has_nop(g: IrtgAst, from: int, state: Seq<char>, with_features: bool) -> bool {
    exists|k: int|
        from <= k < g.rules.len() && adjoins_nothing(#[trigger] g.rules[k], state, with_features)
}

/// A compiled grammar has, after the rules of the entries, a rule that adjoins nothing for
/// every state at which something may be adjoined, and for no other; and it has the
/// interpretations for strings, trees and, where features are used, feature structures.
pub proof fn law_nothing_may_be_adjoined_everywhere(
    d: DeclModel,
    g: IrtgAst,
    list: Seq<EntryModel>,
    state: Seq<char>,
)
    requires
        compile::compiled(d) == Ok::<IrtgAst, CompileFault>(g),
        lexicon::lexicon_of(d) == Ok::<Seq<EntryModel>, LexiconFault>(list),
    ensures
        list.len() <= g.rules.len(),
        entry_may_adjoin(d, list, state) <==> has_nop(
            g,
            list.len() as int,
            state,
            uses_features(d),
        ),
        forall|k: int|
            list.len() <= k < g.rules.len() ==> adjoins_nothing(
                #[trigger] g.rules[k],
                g.rules[k].parent,
                uses_features(d),
            ),
        g.interpretations.len() == (if uses_features(d) {
            3nat
        } else {
            2nat
        }),
        g.interpretations[0] == ("string"@, "de.up.ling.irtg.algebra.TagStringAlgebra"@),
        g.interpretations[1] == ("tree"@, "de.up.ling.irtg.algebra.TagTreeAlgebra"@),
        uses_features(d) ==> g.interpretations[2] == (
            "ft"@,
            "de.up.ling.irtg.algebra.FeatureStructureAlgebra"@,
        ),
{
    let with_features = compile::has_features(d);
    lemma_uses(d);
    lemma_entry_count(d, list, with_features);
    lexicon::lemma_entries_known(d);
    lemma_entry_adjunctions(d, list, state);
    let front = compile::entry_rules(d, list, with_features)->Ok_0;
    let given = compile::adjunction_states(d, list);
    let sorted = compile::sorted_texts(given);
    compile::lemma_sorted_exists(given);
    let nops = compile::nop_rules(sorted, with_features);
    assert forall|k: int| list.len() <= k < g.rules.len() implies adjoins_nothing(
        #[trigger] g.rules[k],
        g.rules[k].parent,
        with_features,
    ) by {
        let rule = nops[k - list.len()];
        assert(g.rules[k] == rule);
        assert(rule.homs[0] == ("tree"@, HomAst::Symbol("*"@, Seq::empty())));
        assert(rule.homs[1] == ("string"@, HomAst::Symbol("*EE*"@, Seq::empty())));
        if with_features {
            assert(rule.homs[2] == (
                "ft"@,
                HomAst::Symbol("[foot: #1 [], root: #1]"@, Seq::empty()),
            ));
        }
    }
    if given.contains(state) {
        assert(sorted.contains(state));
        let j = choose|j: int| 0 <= j < sorted.len() && sorted[j] == state;
        let k = list.len() + j;
        assert(g.rules[k] == nops[j]);
        assert(adjoins_nothing(g.rules[k], g.rules[k].parent, with_features));
    }
    if has_nop(g, list.len() as int, state, with_features) {
        let k = choose|k: int|
            list.len() <= k < g.rules.len() && adjoins_nothing(
                #[trigger] g.rules[k],
                state,
                with_features,
            );
        let j = k - list.len();
        assert(g.rules[k] == nops[j]);
        assert(sorted[j] == state);
        assert(sorted.contains(state));
    }
}

} // verus!
