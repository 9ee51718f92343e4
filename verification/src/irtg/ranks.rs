//! The numbers of children that grammar symbols have, in rules and in images.
use super::assemble;
use super::assemble::IrtgModel;
use super::draft;
use super::draft::{Draft, Image};
use super::grammar;
use crate::alto_ast::{HomAst, RuleAst};
use crate::apply::SymbolTree;
use crate::automaton;
use crate::automaton::RuleModel;
use crate::combinators::invhom;
use crate::explicit::Explicit;
use crate::homomorphism;
use crate::homomorphism::HomModel;
use crate::ids::{StateId, Symbol};
use crate::recognition;
use crate::signature;
use crate::signature::NameList;
use crate::terms::Term;
use crate::traits::BottomUpTa;
use vstd::prelude::*;

verus! {

/// Whether a symbol is declared with `k` children.
pub open spec fn has_rank(names: NameList, f: Symbol, k: nat) -> bool {
    f.0 < names.len() && names[f.0 as int].1 == k
}

/// Whether rules give symbols as many children as they are declared with.
pub open spec fn rules_ranked(names: NameList, rules: Seq<RuleModel>) -> bool {
    forall|i: int|
        0 <= i < rules.len() ==> has_rank(
            names,
            (#[trigger] rules[i]).symbol,
            rules[i].children.len(),
        )
}

/// Whether images belong to symbols with as many children as they are declared with.
pub open spec fn images_ranked(names: NameList, images: Seq<(Symbol, usize, Term)>) -> bool {
    forall|i: int|
        0 <= i < images.len() ==> has_rank(names, (#[trigger] images[i]).0, images[i].1 as nat)
}

/// Whether the rules and the images of a grammar agree on how many children each symbol has.
pub open spec fn ranks_agree(m: IrtgModel) -> bool {
    &&& rules_ranked(m.names, m.automaton.rules)
    &&& forall|k: int|
        0 <= k < m.interpretations.len() ==> images_ranked(
            m.names,
            (#[trigger] m.interpretations[k]).images,
        )
}

spec fn draft_ranked(d: Draft) -> bool {
    &&& rules_ranked(d.names, d.rules)
    &&& forall|i: int|
        0 <= i < d.images.len() ==> has_rank(
            d.names,
            (#[trigger] d.images[i]).symbol,
            d.images[i].arity as nat,
        )
}

proof fn lemma_with_states(d: Draft, list: Seq<(Seq<char>, bool)>)
    ensures
        draft::with_states(d, list).0.names == d.names,
        draft::with_states(d, list).0.rules == d.rules,
        draft::with_states(d, list).0.images == d.images,
        draft::with_states(d, list).1.len() == list.len(),
    decreases list.len(),
{
    if list.len() > 0 {
        lemma_with_states(d, list.drop_last());
    }
}

proof fn lemma_with_images(
    slots: draft::SlotList,
    d: Draft,
    f: Symbol,
    arity: usize,
    homs: Seq<(Seq<char>, HomAst)>,
)
    requires
        draft_ranked(d),
        has_rank(d.names, f, arity as nat),
    ensures
        draft_ranked(draft::with_images(slots, d, f, arity, homs).0),
        draft::with_images(slots, d, f, arity, homs).0.names == d.names,
    decreases homs.len(),
{
    if homs.len() > 0 {
        lemma_with_images(slots, d, f, arity, homs.drop_last());
    }
}

proof fn lemma_interned(names: NameList, name: Seq<char>, arity: usize)
    requires
        names.len() < u32::MAX,
    ensures
        signature::interned(names, name, arity) matches Ok((f, now)) ==> {
            &&& has_rank(now, f, arity as nat)
            &&& names.is_prefix_of(now)
            &&& now.len() <= names.len() + 1
        },
{
    if let Some(i) = signature::place_of(names, name) {
        assert(signature::named(names, name, i));
    }
}

/// What rules declare is ranked.
proof fn lemma_drafted(slots: draft::SlotList, rules: Seq<RuleAst>)
    requires
        draft::rules_size(rules) < u32::MAX,
    ensures
        draft_ranked(draft::drafted(slots, rules).0),
        draft::drafted(slots, rules).0.names.len() <= draft::rules_size(rules),
    decreases rules.len(),
{
    if rules.len() > 0 {
        let short = rules.drop_last();
        lemma_drafted(slots, short);
        let (d, fault) = draft::drafted(slots, short);
        let r = rules.last();
        let (d1, parent) = draft::with_state(d, (r.parent, r.is_final));
        let (d2, ids) = draft::with_states(d1, r.children);
        lemma_with_states(d1, r.children);
        let arity = r.children.len() as usize;
        assert(arity == r.children.len());
        lemma_interned(d2.names, r.symbol, arity);
        if fault is None {
            if let Ok((after, f)) = draft::with_rule(d, r) {
                assert forall|i: int| 0 <= i < after.rules.len() implies has_rank(
                    after.names,
                    (#[trigger] after.rules[i]).symbol,
                    after.rules[i].children.len(),
                ) by {
                    if i < d.rules.len() {
                        assert(after.rules[i] == d.rules[i]);
                    }
                }
                assert forall|i: int| 0 <= i < after.images.len() implies has_rank(
                    after.names,
                    (#[trigger] after.images[i]).symbol,
                    after.images[i].arity as nat,
                ) by {
                    assert(after.images[i] == d.images[i]);
                }
                lemma_with_images(slots, after, f, arity, r.homs);
            }
        }
    }
}

proof fn lemma_slot_images(names: NameList, images: Seq<Image>, slot: nat)
    requires
        forall|i: int|
            0 <= i < images.len() ==> has_rank(
                names,
                (#[trigger] images[i]).symbol,
                images[i].arity as nat,
            ),
    ensures
        images_ranked(names, grammar::slot_images(images, slot)),
    decreases images.len(),
{
    if images.len() > 0 {
        let short = images.drop_last();
        assert forall|i: int| 0 <= i < short.len() implies has_rank(
            names,
            (#[trigger] short[i]).symbol,
            short[i].arity as nat,
        ) by {
            assert(short[i] == images[i]);
        }
        lemma_slot_images(names, short, slot);
        let all = grammar::slot_images(images, slot);
        let rest = grammar::slot_images(short, slot);
        assert(images[images.len() - 1] == images.last());
        assert forall|i: int| 0 <= i < all.len() implies has_rank(
            names,
            (#[trigger] all[i]).0,
            all[i].1 as nat,
        ) by {
            if i < rest.len() {
                assert(all[i] == rest[i]);
            }
        }
    }
}

/// The rules and images of an assembled grammar agree.
pub proof fn lemma_assembled(decls: Seq<(Seq<char>, Seq<char>)>, rules: Seq<RuleAst>)
    requires
        draft::rules_size(rules) < u32::MAX,
    ensures
        ranks_agree(
            assemble::assembled(decls, draft::drafted(draft::slots_of(decls), rules).0),
        ),
{
    let slots = draft::slots_of(decls);
    let d = draft::drafted(slots, rules).0;
    let m = assemble::assembled(decls, d);
    lemma_drafted(slots, rules);
    assert forall|k: int| 0 <= k < m.interpretations.len() implies images_ranked(
        m.names,
        (#[trigger] m.interpretations[k]).images,
    ) by {
        lemma_slot_images(d.names, d.images, k as nat);
    }
}

/// Whether every symbol of a tree that has an image occurs with as many children as the image
/// is for.
pub open spec fn fits(m: HomModel, t: SymbolTree) -> bool
    decreases t,
{
    &&& m.maps(t.symbol) ==> m.arities[t.symbol] == t.children.len()
    &&& forall|i: int| 0 <= i < t.children.len() ==> fits(m, #[trigger] t.children[i])
}

/// A symbol has an image only where one was registered, with its number of children.
proof fn lemma_registered_rank(
    names: NameList,
    images: Seq<(Symbol, usize, Term)>,
    m: HomModel,
    f: Symbol,
)
    requires
        images_ranked(names, images),
        grammar::registered(images, m),
        m.maps(f),
    ensures
        has_rank(names, f, m.arities[f] as nat),
    decreases images.len(),
{
    if images.len() > 0 {
        let short = images.drop_last();
        let before = choose|before: HomModel|
            grammar::registered(short, before) && #[trigger] homomorphism::add_result(
                before,
                images.last().0,
                images.last().1,
                images.last().2,
                Ok(()),
                m,
            );
        assert(images_ranked(names, short)) by {
            assert forall|i: int| 0 <= i < short.len() implies has_rank(
                names,
                (#[trigger] short[i]).0,
                short[i].1 as nat,
            ) by {
                assert(short[i] == images[i]);
            }
        }
        assert(images[images.len() - 1] == images.last());
        if before.maps(f) {
            lemma_registered_rank(names, short, before, f);
        }
    }
}

/// Derivations of a grammar have as many children below each symbol as its image is for.
pub proof fn law_derivations_fit(
    m: IrtgModel,
    grammar: &Explicit,
    k: int,
    hom: HomModel,
    t: SymbolTree,
    q: StateId,
)
    requires
        ranks_agree(m),
        grammar@ == m.automaton,
        0 <= k < m.interpretations.len(),
        grammar::registered(m.interpretations[k].images, hom),
        recognition::reaches(grammar, t, q),
    ensures
        fits(hom, t),
    decreases t,
{
    let states = recognition::lemma_reaches(grammar, t, q);
    let i = choose|i: int|
        0 <= i < grammar@.rules.len() && automaton::applies(
            #[trigger] grammar@.rules[i],
            t.symbol,
            states,
        ) && grammar@.rules[i].result == q;
    assert(has_rank(m.names, m.automaton.rules[i].symbol, m.automaton.rules[i].children.len()));
    if hom.maps(t.symbol) {
        lemma_registered_rank(m.names, m.interpretations[k].images, hom, t.symbol);
    }
    assert forall|c: int| 0 <= c < t.children.len() implies fits(hom, #[trigger] t.children[c]) by {
        law_derivations_fit(m, grammar, k, hom, t.children[c], states[c]);
    }
}

/// A tree that fits has an image exactly where all its symbols have one.
pub proof fn lemma_image_ranked(m: HomModel, t: SymbolTree)
    requires
        m.well_formed(),
        fits(m, t),
    ensures
        crate::apply::image_of(m, t) is Ok <==> invhom::ranked(m, t),
    decreases t,
{
    if invhom::ranked(m, t) {
        invhom::lemma_ranked_image(m, t);
    }
    if crate::apply::image_of(m, t) is Ok {
        lemma_parts_ok(m, t.children);
        assert forall|i: int| 0 <= i < t.children.len() implies invhom::ranked(
            m,
            #[trigger] t.children[i],
        ) by {
            lemma_image_ranked(m, t.children[i]);
        }
    }
}

proof fn lemma_parts_ok(m: HomModel, ts: Seq<SymbolTree>)
    requires
        crate::apply::images_of(m, ts) is Ok,
    ensures
        forall|i: int| 0 <= i < ts.len() ==> crate::apply::image_of(m, #[trigger] ts[i]) is Ok,
    decreases ts.len(),
{
    if ts.len() > 0 {
        let short = ts.drop_last();
        lemma_parts_ok(m, short);
        assert forall|i: int| 0 <= i < ts.len() implies crate::apply::image_of(
            m,
            #[trigger] ts[i],
        ) is Ok by {
            if i < short.len() {
                assert(short[i] == ts[i]);
            }
        }
    }
}

/// An inverse homomorphism gives states only to trees of mapped symbols.
pub proof fn lemma_reached_mapped<'h, 'a, A: BottomUpTa>(
    x: &invhom::InvHom<'h, 'a, A>,
    t: SymbolTree,
    q: A::State,
)
    requires
        fits(x.model(), t),
        recognition::reaches(x, t, q),
    ensures
        invhom::ranked(x.model(), t),
    decreases t,
{
    let states = recognition::lemma_reaches(x, t, q);
    assert(x.steps_to(t.symbol, states, q));
    assert forall|c: int| 0 <= c < t.children.len() implies invhom::ranked(
        x.model(),
        #[trigger] t.children[c],
    ) by {
        lemma_reached_mapped(x, t.children[c], states[c]);
    }
}

} // verus!
