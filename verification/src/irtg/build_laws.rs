//! What a built grammar says of the rules and images that were written down.
use super::assemble;
use super::assemble::{Irtg, IrtgError};
use super::draft;
use super::draft::{Draft, Image, SlotList};
use super::grammar;
use super::lowering;
use crate::alto_ast::{HomAst, IrtgAst, RuleAst};
use crate::automaton::RuleModel;
use crate::ids::{StateId, Symbol};
use crate::signature;
use crate::signature::NameList;
use crate::terms::Term;
use crate::weight::Weight;
use vstd::prelude::*;

verus! {

/// Whether an automaton rule is the one that was written: its states and its symbol have the
/// written names, in the written order, and its weight is the written one bit for bit, or
/// the double `1.0` where none was written.
pub open spec fn is_written(
    states: Seq<Seq<char>>,
    names: NameList,
    rule: RuleModel,
    written: RuleAst,
) -> bool {
    &&& rule.result.0 < states.len()
    &&& states[rule.result.0 as int] == written.parent
    &&& rule.children.len() == written.children.len()
    &&& forall|i: int|
        0 <= i < written.children.len() ==> (#[trigger] rule.children[i]).0 < states.len()
            && states[rule.children[i].0 as int] == written.children[i].0
    &&& rule.symbol.0 < names.len()
    &&& names[rule.symbol.0 as int].0 == written.symbol
    &&& names[rule.symbol.0 as int].1 == written.children.len()
    &&& match written.weight {
        Some(w) => rule.weight == w,
        None => rule.weight.bits == 0x3ff0_0000_0000_0000,
    }
}

/// Whether a rule marks a state with the given name as final.
pub open spec fn marks_final(written: RuleAst, name: Seq<char>) -> bool {
    ||| written.is_final && written.parent == name
    ||| exists|i: int|
        0 <= i < written.children.len() && (#[trigger] written.children[i]).0 == name
            && written.children[i].1
}

/// Whether a rule mentions a state with the given name.
pub open spec fn mentions(written: RuleAst, name: Seq<char>) -> bool {
    ||| written.parent == name
    ||| exists|i: int|
        0 <= i < written.children.len() && (#[trigger] written.children[i]).0 == name
}

/// Whether no name has two numbers.
pub open spec fn names_differ(names: NameList) -> bool {
    forall|i: int, j: int|
        0 <= i < j < names.len() ==> (#[trigger] names[i]).0 != (#[trigger] names[j]).0
}

/// Whether a term spells an image: the same shape, variables counted from zero in place of
/// one, and symbols with the written names and numbers of children. In feature structures an
/// operation may go by its current name.
pub open spec fn spells(t: Term, names: NameList, written: HomAst, features: bool) -> bool
    decreases written,
{
    match written {
        HomAst::Variable(v) => t matches Term::Var(u) && u + 1 == v,
        HomAst::Symbol(label, kids) => match t {
            Term::Var(_) => false,
            Term::App(f, args) => {
                &&& f.0 < names.len()
                &&& names[f.0 as int].0 == (if features {
                    lowering::current_label(label)
                } else {
                    label
                })
                &&& names[f.0 as int].1 == kids.len()
                &&& args.len() == kids.len()
                &&& forall|i: int|
                    0 <= i < kids.len() ==> spells(args[i], names, #[trigger] kids[i], features)
            },
        },
    }
}

/// Whether an interpretation holds feature structures.
pub open spec fn holds_features(algebra: Seq<char>) -> bool {
    algebra == "de.up.ling.irtg.algebra.FeatureStructureAlgebra"@
}

/// Whether an image is the one written for a rule in the interpretation at its place.
pub open spec fn is_written_image(
    slots: SlotList,
    algebra_names: Seq<NameList>,
    image: Image,
    rule: RuleModel,
    arity: nat,
    hom: (Seq<char>, HomAst),
) -> bool {
    &&& image.slot < slots.len()
    &&& slots[image.slot as int].0 == hom.0
    &&& image.symbol == rule.symbol
    &&& image.arity == arity
    &&& spells(
        image.term,
        algebra_names[image.slot as int],
        hom.1,
        holds_features(slots[image.slot as int].1),
    )
}

/// Whether an image is listed for image `j` of rule `k`.
pub open spec fn image_listed(
    slots: SlotList,
    d: Draft,
    rules: Seq<RuleAst>,
    k: int,
    j: int,
) -> bool {
    exists|i: int|
        0 <= i < d.images.len() && is_written_image(
            slots,
            d.algebra_names,
            #[trigger] d.images[i],
            d.rules[k],
            rules[k].children.len(),
            rules[k].homs[j],
        )
}

spec fn states_fit(d: Draft, written: Seq<RuleAst>) -> bool {
    &&& d.states.no_duplicates()
    &&& forall|q: int|
        0 <= q < d.states.len() ==> exists|k: int|
            0 <= k < written.len() && mentions(#[trigger] written[k], #[trigger] d.states[q])
}

spec fn accepting_fit(d: Draft, written: Seq<RuleAst>) -> bool {
    forall|q: StateId| #[trigger]
        d.accepting.contains(q) <==> q.0 < d.states.len() && exists|k: int|
            0 <= k < written.len() && marks_final(#[trigger] written[k], d.states[q.0 as int])
}

/// A draft whose names have grown.
spec fn grown(a: Draft, b: Draft) -> bool {
    &&& a.states.is_prefix_of(b.states)
    &&& a.names.is_prefix_of(b.names)
    &&& a.algebra_names.len() == b.algebra_names.len()
    &&& forall|i: int|
        0 <= i < a.algebra_names.len() ==> (#[trigger] a.algebra_names[i]).is_prefix_of(
            b.algebra_names[i],
        )
    &&& a.images.is_prefix_of(b.images)
    &&& a.rules.is_prefix_of(b.rules)
}

proof fn lemma_grown_transitive(a: Draft, b: Draft, c: Draft)
    requires
        grown(a, b),
        grown(b, c),
    ensures
        grown(a, c),
{
    assert forall|i: int| 0 <= i < a.algebra_names.len() implies (
    #[trigger] a.algebra_names[i]).is_prefix_of(c.algebra_names[i]) by {
        assert(b.algebra_names[i].is_prefix_of(c.algebra_names[i]));
    }
}

/// More names change nothing of what a term spells.
proof fn lemma_spells_more(t: Term, a: NameList, b: NameList, written: HomAst, features: bool)
    requires
        spells(t, a, written, features),
        a.is_prefix_of(b),
    ensures
        spells(t, b, written, features),
    decreases written,
{
    if let HomAst::Symbol(label, kids) = written {
        if let Term::App(f, args) = t {
            assert(b[f.0 as int] == a[f.0 as int]);
            assert forall|i: int| 0 <= i < kids.len() implies spells(
                args[i],
                b,
                #[trigger] kids[i],
                features,
            ) by {
                lemma_spells_more(args[i], a, b, kids[i], features);
            }
        }
    }
}

proof fn lemma_interned(names: NameList, name: Seq<char>, arity: usize)
    requires
        names_differ(names),
        names.len() < u32::MAX,
    ensures
        signature::interned(names, name, arity) matches Ok((f, now)) ==> {
            &&& names.is_prefix_of(now)
            &&& names_differ(now)
            &&& f.0 < now.len()
            &&& now[f.0 as int] == (name, arity)
            &&& now.len() <= names.len() + 1
        },
{
    match signature::place_of(names, name) {
        Some(i) => {
            assert(signature::named(names, name, i));
        },
        None => {
            let now = names.push((name, arity));
            assert forall|i: int, j: int| 0 <= i < j < now.len() implies (#[trigger] now[i]).0 != (
            #[trigger] now[j]).0 by {
                if j == names.len() {
                    if names[i].0 == name {
                        assert(signature::named(names, name, i));
                    }
                }
            }
        },
    }
}

/// Lowering an image spells it.
proof fn lemma_lowered(written: HomAst, names: NameList, features: bool)
    requires
        names_differ(names),
        names.len() + lowering::term_size(written) < u32::MAX,
    ensures
        lowering::lowered(
            if features {
                lowering::normalized(written)
            } else {
                written
            },
            names,
        ) matches Ok((t, now)) ==> {
            &&& spells(t, now, written, features)
            &&& names.is_prefix_of(now)
            &&& names_differ(now)
            &&& now.len() <= names.len() + lowering::term_size(written)
        },
    decreases written, 0int,
{
    if let HomAst::Symbol(label, kids) = written {
        let read = if features {
            lowering::normalized(written)
        } else {
            written
        };
        let parts = if features {
            lowering::all_normalized(kids)
        } else {
            kids
        };
        assert(read->Symbol_1 =~= parts);
        lemma_lowered_list(written, kids, names, features);
        lemma_size_bounds(kids);
        if let Ok((args, known)) = lowering::lowered_list(parts, names) {
            let arity = parts.len() as usize;
            assert(arity == kids.len());
            lemma_interned(known, read->Symbol_0, arity);
            if let Ok((f, now)) = signature::interned(known, read->Symbol_0, arity) {
                assert forall|i: int| 0 <= i < kids.len() implies spells(
                    args[i],
                    now,
                    #[trigger] kids[i],
                    features,
                ) by {
                    lemma_spells_more(args[i], known, now, kids[i], features);
                }
            }
        }
    }
}

/// A list has no more terms than nodes.
proof fn lemma_size_bounds(kids: Seq<HomAst>)
    ensures
        kids.len() <= lowering::list_size(kids),
    decreases kids.len(),
{
    if kids.len() > 0 {
        lemma_size_bounds(kids.drop_last());
        assert(lowering::term_size(kids.last()) >= 1);
    }
}

proof fn lemma_lowered_list(whole: HomAst, kids: Seq<HomAst>, names: NameList, features: bool)
    requires
        whole matches HomAst::Symbol(label, all) && kids.len() <= all.len() && forall|i: int|
            0 <= i < kids.len() ==> kids[i] == #[trigger] all[i],
        names_differ(names),
        names.len() + lowering::list_size(kids) < u32::MAX,
    ensures
        lowering::lowered_list(
            if features {
                lowering::all_normalized(kids)
            } else {
                kids
            },
            names,
        ) matches Ok((args, now)) ==> {
            &&& args.len() == kids.len()
            &&& forall|i: int|
                0 <= i < kids.len() ==> spells(args[i], now, #[trigger] kids[i], features)
            &&& names.is_prefix_of(now)
            &&& names_differ(now)
            &&& now.len() <= names.len() + lowering::list_size(kids)
        },
    decreases whole, 0int, kids.len(),
{
    if kids.len() > 0 {
        let front = kids.drop_last();
        let last = kids.last();
        let all = whole->Symbol_1;
        assert(kids[kids.len() - 1] == all[kids.len() - 1]);
        assert forall|i: int| 0 <= i < front.len() implies front[i] == #[trigger] all[i] by {
            assert(kids[i] == all[i]);
        }
        lemma_lowered_list(whole, front, names, features);
        let parts = if features {
            lowering::all_normalized(kids)
        } else {
            kids
        };
        let ahead = if features {
            lowering::all_normalized(front)
        } else {
            front
        };
        assert(parts.drop_last() =~= ahead);
        if let Ok((args, known)) = lowering::lowered_list(ahead, names) {
            lemma_lowered(last, known, features);
            if let Ok((arg, now)) = lowering::lowered(parts.last(), known) {
                let longer = args.push(arg);
                assert forall|i: int| 0 <= i < kids.len() implies spells(
                    longer[i],
                    now,
                    #[trigger] kids[i],
                    features,
                ) by {
                    if i < front.len() {
                        assert(front[i] == kids[i]);
                        assert(spells(args[i], known, front[i], features));
                        lemma_spells_more(args[i], known, now, kids[i], features);
                    }
                }
            }
        }
    }
}

/// What mentioning a state does.
proof fn lemma_with_state(d: Draft, s: (Seq<char>, bool))
    requires
        d.states.no_duplicates(),
        d.states.len() < u32::MAX,
    ensures
        ({
            let (e, id) = draft::with_state(d, s);
            &&& grown(d, e)
            &&& e.rules == d.rules
            &&& e.images == d.images
            &&& e.names == d.names
            &&& e.algebra_names == d.algebra_names
            &&& e.states.no_duplicates()
            &&& e.states.len() <= d.states.len() + 1
            &&& id.0 < e.states.len()
            &&& e.states[id.0 as int] == s.0
            &&& forall|q: int| d.states.len() <= q < e.states.len() ==> e.states[q] == s.0
            &&& forall|q: StateId| #[trigger]
                e.accepting.contains(q) <==> (d.accepting.contains(q) || (s.1 && q.0
                    < e.states.len() && e.states[q.0 as int] == s.0))
        }),
{
    let (e, id) = draft::with_state(d, s);
    if d.states.contains(s.0) {
        let i = d.states.index_of(s.0);
        assert(d.states[i] == s.0);
    } else {
        assert(e.states =~= d.states.push(s.0));
        assert forall|i: int, j: int|
            0 <= i < e.states.len() && 0 <= j < e.states.len() && i != j implies e.states[i]
            != e.states[j] by {
            if i < d.states.len() {
                assert(d.states.contains(d.states[i]));
            }
            if j < d.states.len() {
                assert(d.states.contains(d.states[j]));
            }
        }
    }
    assert forall|q: StateId| #[trigger] e.accepting.contains(q) <==> (d.accepting.contains(q) || (
    s.1 && q.0 < e.states.len() && e.states[q.0 as int] == s.0)) by {
        if s.1 && q.0 < e.states.len() && e.states[q.0 as int] == s.0 {
            assert(q.0 == id.0);
        }
    }
}

/// What mentioning states does.
proof fn lemma_with_states(d: Draft, list: Seq<(Seq<char>, bool)>)
    requires
        d.states.no_duplicates(),
        d.states.len() + list.len() < u32::MAX,
    ensures
        ({
            let (e, ids) = draft::with_states(d, list);
            &&& grown(d, e)
            &&& e.rules == d.rules
            &&& e.images == d.images
            &&& e.names == d.names
            &&& e.algebra_names == d.algebra_names
            &&& e.states.no_duplicates()
            &&& e.states.len() <= d.states.len() + list.len()
            &&& ids.len() == list.len()
            &&& forall|i: int|
                0 <= i < list.len() ==> (#[trigger] ids[i]).0 < e.states.len()
                    && e.states[ids[i].0 as int] == list[i].0
            &&& forall|q: int|
                d.states.len() <= q < e.states.len() ==> exists|i: int|
                    0 <= i < list.len() && (#[trigger] list[i]).0 == #[trigger] e.states[q]
            &&& forall|q: StateId| #[trigger]
                e.accepting.contains(q) <==> (d.accepting.contains(q) || (q.0 < e.states.len()
                    && exists|i: int|
                    0 <= i < list.len() && (#[trigger] list[i]).0 == e.states[q.0 as int]
                        && list[i].1))
        }),
    decreases list.len(),
{
    if list.len() > 0 {
        let n = list.len() - 1;
        let front = list.drop_last();
        lemma_with_states(d, front);
        let (m, some) = draft::with_states(d, front);
        lemma_with_state(m, list.last());
        let (e, ids) = draft::with_states(d, list);
        lemma_grown_transitive(d, m, e);
        assert forall|i: int| 0 <= i < list.len() implies (#[trigger] ids[i]).0 < e.states.len()
            && e.states[ids[i].0 as int] == list[i].0 by {
            if i < n {
                assert(ids[i] == some[i]);
                assert(front[i] == list[i]);
                assert(e.states[some[i].0 as int] == m.states[some[i].0 as int]);
            }
        }
        assert forall|q: int| d.states.len() <= q < e.states.len() implies exists|i: int|
            0 <= i < list.len() && (#[trigger] list[i]).0 == #[trigger] e.states[q] by {
            if q < m.states.len() {
                let i = choose|i: int|
                    0 <= i < front.len() && (#[trigger] front[i]).0 == m.states[q];
                assert(list[i] == front[i]);
            } else {
                assert(list[n].0 == e.states[q]);
            }
        }
        assert forall|q: StateId| #[trigger] e.accepting.contains(q) <==> (d.accepting.contains(q)
            || (q.0 < e.states.len() && exists|i: int|
            0 <= i < list.len() && (#[trigger] list[i]).0 == e.states[q.0 as int] && list[i].1))
            by {
            if m.accepting.contains(q) && !d.accepting.contains(q) {
                let i = choose|i: int|
                    0 <= i < front.len() && (#[trigger] front[i]).0 == m.states[q.0 as int]
                        && front[i].1;
                assert(list[i] == front[i]);
                assert(e.states[q.0 as int] == m.states[q.0 as int]);
            }
            if e.accepting.contains(q) && !m.accepting.contains(q) {
                assert(list[n].0 == e.states[q.0 as int] && list[n].1);
            }
            if q.0 < e.states.len() && exists|i: int|
                0 <= i < list.len() && (#[trigger] list[i]).0 == e.states[q.0 as int]
                    && list[i].1 {
                let i = choose|i: int|
                    0 <= i < list.len() && (#[trigger] list[i]).0 == e.states[q.0 as int]
                        && list[i].1;
                if i < n {
                    assert(front[i] == list[i]);
                    let p = some[i];
                    assert(e.states[p.0 as int] == list[i].0);
                    assert(p.0 == q.0);
                    assert(m.states[q.0 as int] == front[i].0);
                    assert(m.accepting.contains(q));
                } else {
                    assert(list[n] == list.last());
                }
            }
        }
    } else {
        assert forall|q: StateId| #[trigger]
            draft::with_states(d, list).0.accepting.contains(q) <==> (d.accepting.contains(q) || (
            q.0 < d.states.len() && exists|i: int|
                0 <= i < list.len() && (#[trigger] list[i]).0 == d.states[q.0 as int]
                    && list[i].1)) by {}
    }
}

/// What adding a rule does.
proof fn lemma_with_rule(d: Draft, r: RuleAst)
    requires
        d.states.no_duplicates(),
        names_differ(d.names),
        d.states.len() + 1 + r.children.len() < u32::MAX,
        d.names.len() < u32::MAX,
    ensures
        draft::with_rule(d, r) matches Ok((e, f)) ==> {
            &&& grown(d, e)
            &&& e.images == d.images
            &&& e.algebra_names == d.algebra_names
            &&& e.states.no_duplicates()
            &&& names_differ(e.names)
            &&& e.states.len() <= d.states.len() + 1 + r.children.len()
            &&& e.names.len() <= d.names.len() + 1
            &&& e.rules.len() == d.rules.len() + 1
            &&& e.rules.last().symbol == f
            &&& is_written(e.states, e.names, e.rules.last(), r)
            &&& forall|q: int|
                d.states.len() <= q < e.states.len() ==> mentions(r, #[trigger] e.states[q])
            &&& forall|q: StateId| #[trigger]
                e.accepting.contains(q) <==> (d.accepting.contains(q) || (q.0 < e.states.len()
                    && marks_final(r, e.states[q.0 as int])))
        },
{
    lemma_with_state(d, (r.parent, r.is_final));
    let (d1, parent) = draft::with_state(d, (r.parent, r.is_final));
    lemma_with_states(d1, r.children);
    let (d2, ids) = draft::with_states(d1, r.children);
    lemma_grown_transitive(d, d1, d2);
    let arity = r.children.len() as usize;
    assert(arity == r.children.len());
    lemma_interned(d2.names, r.symbol, arity);
    if let Ok((e, f)) = draft::with_rule(d, r) {
        let last = e.rules.last();
        assert(e.states == d2.states);
        assert(d2.states[parent.0 as int] == d1.states[parent.0 as int]);
        assert(last.children == ids);
        assert forall|i: int| 0 <= i < r.children.len() implies (#[trigger] last.children[i]).0
            < e.states.len() && e.states[last.children[i].0 as int] == r.children[i].0 by {
            assert(last.children[i] == ids[i]);
        }
        assert forall|q: int| d.states.len() <= q < e.states.len() implies mentions(
            r,
            #[trigger] e.states[q],
        ) by {
            if q < d1.states.len() {
                assert(d2.states[q] == d1.states[q]);
            } else {
                let i = choose|i: int|
                    0 <= i < r.children.len() && (#[trigger] r.children[i]).0 == d2.states[q];
                assert(r.children[i].0 == e.states[q]);
            }
        }
        assert forall|q: StateId| #[trigger] e.accepting.contains(q) <==> (d.accepting.contains(q)
            || (q.0 < e.states.len() && marks_final(r, e.states[q.0 as int]))) by {
            assert(e.accepting == d2.accepting);
            if d1.accepting.contains(q) && !d.accepting.contains(q) {
                assert(d2.states[q.0 as int] == d1.states[q.0 as int]);
            }
            if q.0 < e.states.len() && r.is_final && r.parent == e.states[q.0 as int] {
                assert(d2.states[parent.0 as int] == r.parent);
                assert(q.0 == parent.0);
                assert(d1.accepting.contains(q));
            }
        }
    }
}

/// An image stays what it is when names are added.
proof fn lemma_image_kept(
    slots: SlotList,
    a: Draft,
    b: Draft,
    image: Image,
    rule: RuleModel,
    arity: nat,
    hom: (Seq<char>, HomAst),
)
    requires
        grown(a, b),
        slots.len() == a.algebra_names.len(),
        is_written_image(slots, a.algebra_names, image, rule, arity, hom),
    ensures
        is_written_image(slots, b.algebra_names, image, rule, arity, hom),
{
    assert(a.algebra_names[image.slot as int].is_prefix_of(b.algebra_names[image.slot as int]));
    lemma_spells_more(
        image.term,
        a.algebra_names[image.slot as int],
        b.algebra_names[image.slot as int],
        hom.1,
        holds_features(slots[image.slot as int].1),
    );
}

spec fn algebras_fit(d: Draft, n: int) -> bool {
    forall|i: int|
        0 <= i < d.algebra_names.len() ==> names_differ(#[trigger] d.algebra_names[i])
            && d.algebra_names[i].len() <= n
}

/// What adding images does.
proof fn lemma_with_images(
    slots: SlotList,
    d: Draft,
    rule: RuleModel,
    arity: usize,
    homs: Seq<(Seq<char>, HomAst)>,
    n: int,
)
    requires
        slots.len() == d.algebra_names.len(),
        algebras_fit(d, n),
        n + draft::homs_size(homs) < u32::MAX,
    ensures
        ({
            let (e, fault) = draft::with_images(slots, d, rule.symbol, arity, homs);
            &&& grown(d, e)
            &&& e.states == d.states
            &&& e.accepting == d.accepting
            &&& e.rules == d.rules
            &&& e.names == d.names
            &&& algebras_fit(e, n + draft::homs_size(homs))
            &&& fault is None ==> {
                &&& e.images.len() == d.images.len() + homs.len()
                &&& forall|j: int|
                    0 <= j < homs.len() ==> is_written_image(
                        slots,
                        e.algebra_names,
                        e.images[d.images.len() + j],
                        rule,
                        arity as nat,
                        #[trigger] homs[j],
                    )
            }
        }),
    decreases homs.len(),
{
    if homs.len() > 0 {
        let front = homs.drop_last();
        lemma_with_images(slots, d, rule, arity, front, n);
        let (m, fault) = draft::with_images(slots, d, rule.symbol, arity, front);
        if fault is None {
            let hom = homs.last();
            if let Ok(e) = draft::with_image(slots, m, rule.symbol, arity, hom) {
                let s = draft::slot_of(slots, hom.0)->0;
                let features = holds_features(slots[s].1);
                assert(names_differ(m.algebra_names[s]));
                lemma_lowered(hom.1, m.algebra_names[s], features);
                assert(grown(m, e)) by {
                    assert forall|i: int| 0 <= i < m.algebra_names.len() implies (
                    #[trigger] m.algebra_names[i]).is_prefix_of(e.algebra_names[i]) by {}
                }
                lemma_grown_transitive(d, m, e);
                assert forall|j: int| 0 <= j < homs.len() implies is_written_image(
                    slots,
                    e.algebra_names,
                    e.images[d.images.len() + j],
                    rule,
                    arity as nat,
                    #[trigger] homs[j],
                ) by {
                    if j < front.len() {
                        assert(front[j] == homs[j]);
                        assert(e.images[d.images.len() + j] == m.images[d.images.len() + j]);
                        lemma_image_kept(
                            slots,
                            m,
                            e,
                            m.images[d.images.len() + j],
                            rule,
                            arity as nat,
                            homs[j],
                        );
                    }
                }
            }
        }
    }
}

spec fn all_written(d: Draft, rules: Seq<RuleAst>) -> bool {
    d.rules.len() == rules.len() && forall|k: int|
        0 <= k < rules.len() ==> is_written(
            d.states,
            d.names,
            #[trigger] d.rules[k],
            rules[k],
        )
}

spec fn all_listed(slots: SlotList, d: Draft, rules: Seq<RuleAst>) -> bool {
    forall|k: int, j: int|
        0 <= k < rules.len() && 0 <= j < rules[k].homs.len() ==> #[trigger] image_listed(
            slots,
            d,
            rules,
            k,
            j,
        )
}

/// Whether an image was written for some rule.
pub open spec fn image_has_source(
    slots: SlotList,
    d: Draft,
    rules: Seq<RuleAst>,
    i: int,
) -> bool {
    exists|k: int, j: int|
        0 <= k < rules.len() && 0 <= j < rules[k].homs.len() && is_written_image(
            slots,
            d.algebra_names,
            d.images[i],
            d.rules[k],
            rules[k].children.len(),
            #[trigger] rules[k].homs[j],
        )
}

spec fn all_sources(slots: SlotList, d: Draft, rules: Seq<RuleAst>) -> bool {
    forall|i: int| 0 <= i < d.images.len() ==> #[trigger] image_has_source(slots, d, rules, i)
}

/// What a draft without faults says.
proof fn lemma_drafted(slots: SlotList, rules: Seq<RuleAst>)
    requires
        draft::rules_size(rules) < u32::MAX,
        draft::drafted(slots, rules).1 is None,
    ensures
        ({
            let d = draft::drafted(slots, rules).0;
            &&& all_written(d, rules)
            &&& all_listed(slots, d, rules)
            &&& all_sources(slots, d, rules)
            &&& states_fit(d, rules)
            &&& accepting_fit(d, rules)
            &&& names_differ(d.names)
            &&& d.algebra_names.len() == slots.len()
            &&& algebras_fit(d, draft::rules_size(rules) as int)
            &&& d.states.len() <= draft::rules_size(rules)
            &&& d.names.len() <= draft::rules_size(rules)
        }),
    decreases rules.len(),
{
    let d = draft::drafted(slots, rules).0;
    if rules.len() == 0 {
        assert(d.accepting =~= Set::empty());
    } else {
        let short = rules.drop_last();
        let r = rules.last();
        let n = rules.len() - 1;
        lemma_drafted(slots, short);
        let a = draft::drafted(slots, short).0;
        lemma_with_rule(a, r);
        let (b, f) = draft::with_rule(a, r)->Ok_0;
        let arity = r.children.len() as usize;
        assert(arity == r.children.len());
        assert(algebras_fit(b, draft::rules_size(short) as int));
        lemma_with_images(
            slots,
            b,
            b.rules.last(),
            arity,
            r.homs,
            draft::rules_size(short) as int,
        );
        lemma_grown_transitive(a, b, d);
        assert(r == rules[n]);
        assert forall|k: int| 0 <= k < rules.len() implies is_written(
            d.states,
            d.names,
            #[trigger] d.rules[k],
            rules[k],
        ) by {
            if k < n {
                assert(short[k] == rules[k]);
                assert(d.rules[k] == a.rules[k]);
                assert(is_written(a.states, a.names, a.rules[k], short[k]));
                assert forall|i: int| 0 <= i < rules[k].children.len() implies (
                #[trigger] d.rules[k].children[i]).0 < d.states.len()
                    && d.states[d.rules[k].children[i].0 as int] == rules[k].children[i].0 by {
                    assert(a.rules[k].children[i].0 < a.states.len());
                }
            } else {
                assert(d.rules[k] == b.rules.last());
            }
        }
        assert forall|k: int, j: int|
            0 <= k < rules.len() && 0 <= j < rules[k].homs.len() implies #[trigger] image_listed(
            slots,
            d,
            rules,
            k,
            j,
        ) by {
            if k < n {
                assert(short[k] == rules[k]);
                assert(d.rules[k] == a.rules[k]);
                assert(image_listed(slots, a, short, k, j));
                let i = choose|i: int|
                    0 <= i < a.images.len() && is_written_image(
                        slots,
                        a.algebra_names,
                        #[trigger] a.images[i],
                        a.rules[k],
                        short[k].children.len(),
                        short[k].homs[j],
                    );
                lemma_image_kept(
                    slots,
                    a,
                    d,
                    a.images[i],
                    a.rules[k],
                    short[k].children.len(),
                    short[k].homs[j],
                );
                assert(d.images[i] == a.images[i]);
            } else {
                assert(r.homs[j] == rules[k].homs[j]);
                let i = b.images.len() + j;
                assert(is_written_image(
                    slots,
                    d.algebra_names,
                    d.images[i],
                    d.rules[k],
                    rules[k].children.len(),
                    rules[k].homs[j],
                ));
            }
        }
        assert forall|i: int| 0 <= i < d.images.len() implies #[trigger] image_has_source(
            slots,
            d,
            rules,
            i,
        ) by {
            if i < a.images.len() {
                assert(image_has_source(slots, a, short, i));
                let (k, j) = choose|k: int, j: int|
                    0 <= k < short.len() && 0 <= j < short[k].homs.len() && is_written_image(
                        slots,
                        a.algebra_names,
                        a.images[i],
                        a.rules[k],
                        short[k].children.len(),
                        #[trigger] short[k].homs[j],
                    );
                lemma_image_kept(
                    slots,
                    a,
                    d,
                    a.images[i],
                    a.rules[k],
                    short[k].children.len(),
                    short[k].homs[j],
                );
                assert(d.images[i] == a.images[i]);
                assert(d.rules[k] == a.rules[k]);
                assert(rules[k].homs[j] == short[k].homs[j]);
            } else {
                let j = i - b.images.len();
                assert(r.homs[j] == rules[n].homs[j]);
                assert(d.rules[n] == b.rules.last());
            }
        }
        assert forall|q: int| 0 <= q < d.states.len() implies exists|k: int|
            0 <= k < rules.len() && mentions(#[trigger] rules[k], #[trigger] d.states[q]) by {
            if q < a.states.len() {
                let k = choose|k: int|
                    0 <= k < short.len() && mentions(#[trigger] short[k], a.states[q]);
                assert(rules[k] == short[k]);
                assert(d.states[q] == a.states[q]);
            } else {
                assert(mentions(r, b.states[q]));
                assert(mentions(rules[n], d.states[q]));
            }
        }
        assert forall|q: StateId| #[trigger] d.accepting.contains(q) <==> q.0 < d.states.len()
            && exists|k: int|
            0 <= k < rules.len() && marks_final(#[trigger] rules[k], d.states[q.0 as int]) by {
            assert(d.accepting == b.accepting && d.states == b.states);
            if a.accepting.contains(q) {
                let k = choose|k: int|
                    0 <= k < short.len() && marks_final(
                        #[trigger] short[k],
                        a.states[q.0 as int],
                    );
                assert(rules[k] == short[k]);
                assert(d.states[q.0 as int] == a.states[q.0 as int]);
            } else if b.accepting.contains(q) {
                assert(marks_final(rules[n], d.states[q.0 as int]));
            }
            if q.0 < d.states.len() && exists|k: int|
                0 <= k < rules.len() && marks_final(#[trigger] rules[k], d.states[q.0 as int]) {
                let k = choose|k: int|
                    0 <= k < rules.len() && marks_final(
                        #[trigger] rules[k],
                        d.states[q.0 as int],
                    );
                if k < n {
                    assert(short[k] == rules[k]);
                    let name = d.states[q.0 as int];
                    lemma_marked_is_known(a, short, k, name);
                    let p = a.states.index_of(name);
                    assert(a.states[p] == name);
                    assert(d.states[p] == name);
                    assert(p == q.0);
                    assert(a.accepting.contains(q));
                }
            }
        }
    }
}

/// A state that a rule marks is one of the draft.
proof fn lemma_marked_is_known(d: Draft, rules: Seq<RuleAst>, k: int, name: Seq<char>)
    requires
        all_written(d, rules),
        0 <= k < rules.len(),
        marks_final(rules[k], name),
    ensures
        d.states.contains(name),
{
    assert(is_written(d.states, d.names, d.rules[k], rules[k]));
    if rules[k].is_final && rules[k].parent == name {
        assert(d.states[d.rules[k].result.0 as int] == name);
    } else {
        let i = choose|i: int|
            0 <= i < rules[k].children.len() && (#[trigger] rules[k].children[i]).0 == name
                && rules[k].children[i].1;
        assert(d.rules[k].children[i].0 < d.states.len());
        assert(d.states[d.rules[k].children[i].0 as int] == name);
    }
}

/// A built grammar has the rules that were written, in order: the names of their states and
/// symbols, and their weights bit for bit. A state is accepting just where it was marked as
/// final, every state was mentioned, and no state or symbol has two numbers.
pub proof fn law_rules_are_as_written(ast: IrtgAst, g: Irtg)
    requires
        draft::rules_size(ast.rules) < u32::MAX,
        assemble::build_outcome(ast, Ok::<Irtg, IrtgError>(g)),
    ensures
        g@.automaton.rules.len() == ast.rules.len(),
        forall|k: int|
            0 <= k < ast.rules.len() ==> is_written(
                g@.states,
                g@.names,
                #[trigger] g@.automaton.rules[k],
                ast.rules[k],
            ),
        g@.automaton.states == g@.states.len(),
        g@.states.no_duplicates(),
        names_differ(g@.names),
        forall|q: int|
            0 <= q < g@.states.len() ==> exists|k: int|
                0 <= k < ast.rules.len() && mentions(
                    #[trigger] ast.rules[k],
                    #[trigger] g@.states[q],
                ),
        forall|q: StateId| #[trigger]
            g@.automaton.accepting.contains(q) <==> q.0 < g@.states.len() && exists|k: int|
                0 <= k < ast.rules.len() && marks_final(
                    #[trigger] ast.rules[k],
                    g@.states[q.0 as int],
                ),
{
    let slots = draft::slots_of(ast.interpretations);
    lemma_drafted(slots, ast.rules);
}

/// Two grammars that state different weights for one of their rules are built into different
/// automata.
pub proof fn law_weights_tell_grammars_apart(
    one: IrtgAst,
    other: IrtgAst,
    g: Irtg,
    h: Irtg,
    k: int,
    v: Weight,
    w: Weight,
)
    requires
        draft::rules_size(one.rules) < u32::MAX,
        draft::rules_size(other.rules) < u32::MAX,
        assemble::build_outcome(one, Ok::<Irtg, IrtgError>(g)),
        assemble::build_outcome(other, Ok::<Irtg, IrtgError>(h)),
        0 <= k < one.rules.len(),
        k < other.rules.len(),
        one.rules[k].weight == Some(v),
        other.rules[k].weight == Some(w),
        v != w,
    ensures
        g@.automaton != h@.automaton,
{
    law_rules_are_as_written(one, g);
    law_rules_are_as_written(other, h);
    assert(is_written(g@.states, g@.names, g@.automaton.rules[k], one.rules[k]));
    assert(is_written(h@.states, h@.names, h@.automaton.rules[k], other.rules[k]));
}

/// Whether an interpretation has the image that was written for a rule.
pub open spec fn has_image(
    m: grammar::InterpretationModel,
    rule: RuleModel,
    arity: nat,
    written: HomAst,
) -> bool {
    exists|i: int|
        0 <= i < m.images.len() && (#[trigger] m.images[i]).0 == rule.symbol && m.images[i].1
            == arity && spells(m.images[i].2, m.names, written, holds_features(m.class_name))
}

/// The images of one place, in order.
proof fn lemma_slot_images(images: Seq<Image>, slot: nat)
    ensures
        forall|i: int|
            0 <= i < images.len() && (#[trigger] images[i]).slot == slot ==> grammar::slot_images(
                images,
                slot,
            ).contains((images[i].symbol, images[i].arity, images[i].term)),
    decreases images.len(),
{
    if images.len() > 0 {
        let short = images.drop_last();
        lemma_slot_images(short, slot);
        let rest = grammar::slot_images(short, slot);
        let all = grammar::slot_images(images, slot);
        assert forall|i: int| 0 <= i < images.len() && (#[trigger] images[i]).slot == slot implies
            all.contains((images[i].symbol, images[i].arity, images[i].term)) by {
            if i < short.len() {
                assert(short[i] == images[i]);
                let e = (images[i].symbol, images[i].arity, images[i].term);
                assert(rest.contains(e));
                let p = choose|p: int| 0 <= p < rest.len() && rest[p] == e;
                assert(all[p] == e);
            } else {
                assert(all[all.len() - 1] == (images[i].symbol, images[i].arity, images[i].term));
            }
        }
    }
}

/// A built grammar has the images that were written: for every image of every rule, the
/// interpretation with its name, unless it is declared more than once, maps the rule's symbol
/// to a term that spells the image.
pub proof fn law_images_are_as_written(ast: IrtgAst, g: Irtg, k: int, j: int)
    requires
        draft::rules_size(ast.rules) < u32::MAX,
        assemble::build_outcome(ast, Ok::<Irtg, IrtgError>(g)),
        0 <= k < ast.rules.len(),
        0 <= j < ast.rules[k].homs.len(),
        assemble::declared_once(ast.interpretations, ast.rules[k].homs[j].0),
    ensures
        exists|s: int|
            0 <= s < g@.interpretations.len() && (#[trigger] g@.interpretations[s]).name
                == ast.rules[k].homs[j].0 && has_image(
                g@.interpretations[s],
                g@.automaton.rules[k],
                ast.rules[k].children.len(),
                ast.rules[k].homs[j].1,
            ),
{
    let decls = ast.interpretations;
    let slots = draft::slots_of(decls);
    lemma_drafted(slots, ast.rules);
    let d = draft::drafted(slots, ast.rules).0;
    assert(image_listed(slots, d, ast.rules, k, j));
    let i = choose|i: int|
        0 <= i < d.images.len() && is_written_image(
            slots,
            d.algebra_names,
            #[trigger] d.images[i],
            d.rules[k],
            ast.rules[k].children.len(),
            ast.rules[k].homs[j],
        );
    let image = d.images[i];
    let s = image.slot as int;
    let m = g@.interpretations[s];
    assert(m == assemble::interpretation_at(decls, d, s));
    lemma_slot_images(d.images, image.slot);
    let e = (image.symbol, image.arity, image.term);
    let p = choose|p: int| 0 <= p < m.images.len() && m.images[p] == e;
    assert(m.images[p] == e);
    assert(names_differ(d.algebra_names[s]));
    assert(d.algebra_names[s].is_prefix_of(m.names)) by {
        if grammar::kind_of(slots[s].1) == Some(grammar::InterpretationKind::BinarizedTagTree) {
            lemma_interned(d.algebra_names[s], "_@_"@, 2);
            lemma_append_known(decls, d, s);
        }
    }
    lemma_spells_more(
        image.term,
        d.algebra_names[s],
        m.names,
        ast.rules[k].homs[j].1,
        holds_features(slots[s].1),
    );
    assert(has_image(
        m,
        g@.automaton.rules[k],
        ast.rules[k].children.len(),
        ast.rules[k].homs[j].1,
    ));
}

/// No interpretation has two places.
proof fn lemma_slots_differ(decls: Seq<(Seq<char>, Seq<char>)>)
    ensures
        draft::slots_differ(draft::slots_of(decls)),
    decreases decls.len(),
{
    if decls.len() > 0 {
        lemma_slots_differ(decls.drop_last());
        let before = draft::slots_of(decls.drop_last());
        let now = draft::slots_of(decls);
        assert forall|i: int, j: int| 0 <= i < j < now.len() implies (#[trigger] now[i]).0 != (
        #[trigger] now[j]).0 by {
            match draft::slot_of(before, decls.last().0) {
                Some(k) => {
                    assert(now[i].0 == before[i].0 && now[j].0 == before[j].0);
                },
                None => {
                    if j == before.len() {
                        assert(now[i] == before[i]);
                    }
                },
            }
        }
    }
}

/// A binarized interpretation without faults can have the symbol that appends.
proof fn lemma_append_known(decls: Seq<(Seq<char>, Seq<char>)>, d: Draft, s: int)
    requires
        0 <= s < draft::slots_of(decls).len(),
        assemble::decls_ok(decls, d),
        assemble::declared_once(decls, draft::slots_of(decls)[s].0),
        grammar::kind_of(draft::slots_of(decls)[s].1) == Some(
            grammar::InterpretationKind::BinarizedTagTree,
        ),
    ensures
        signature::interned(d.algebra_names[s], "_@_"@, 2) is Ok,
{
    let slots = draft::slots_of(decls);
    let k = assemble::lemma_slot_declared(decls, s);
    lemma_slots_differ(decls);
    draft::lemma_slot(slots, decls[k].0, s);
    assert(assemble::decl_fault(decls, d, k) is None);
    if assemble::seen_before(decls, k) {
        let j = choose|j: int| 0 <= j < k && (#[trigger] decls[j]).0 == decls[k].0;
        assert(decls[j].0 != decls[k].0);
    }
}

/// Which algebras there are and what they can be used for, by the names of their classes.
pub proof fn law_algebra_kinds(class: Seq<char>)
    ensures
        ({
            let kind = grammar::kind_of(class);
            &&& kind == Some(grammar::InterpretationKind::String) <==> class
                == "de.up.ling.irtg.algebra.StringAlgebra"@
            &&& kind == Some(grammar::InterpretationKind::TagString) <==> class
                == "de.up.ling.irtg.algebra.TagStringAlgebra"@
            &&& kind == Some(grammar::InterpretationKind::TagTree) <==> (class
                == "de.up.ling.irtg.algebra.TagTreeAlgebra"@ || class
                == "de.up.ling.irtg.algebra.TagTreeWithAritiesAlgebra"@)
            &&& kind == Some(grammar::InterpretationKind::BinarizedTagTree) <==> (class
                == "de.up.ling.irtg.algebra.BinarizingTagTreeAlgebra"@ || class
                == "de.up.ling.irtg.algebra.BinarizingTagTreeWithAritiesAlgebra"@)
            &&& kind == Some(grammar::InterpretationKind::OutputOnly) <==> (class
                == "de.up.ling.irtg.algebra.FeatureStructureAlgebra"@ || class
                == "de.up.ling.irtg.algebra.TreeWithAritiesAlgebra"@ || class
                == "de.up.ling.irtg.algebra.BinarizingTreeWithAritiesAlgebra"@)
        }),
{
    reveal_strlit("de.up.ling.irtg.algebra.StringAlgebra");
    assert("de.up.ling.irtg.algebra.StringAlgebra"@.len() == 37);
    reveal_strlit("de.up.ling.irtg.algebra.TagStringAlgebra");
    assert("de.up.ling.irtg.algebra.TagStringAlgebra"@.len() == 40);
    reveal_strlit("de.up.ling.irtg.algebra.TagTreeAlgebra");
    assert("de.up.ling.irtg.algebra.TagTreeAlgebra"@.len() == 38);
    reveal_strlit("de.up.ling.irtg.algebra.TagTreeWithAritiesAlgebra");
    assert("de.up.ling.irtg.algebra.TagTreeWithAritiesAlgebra"@.len() == 49);
    reveal_strlit("de.up.ling.irtg.algebra.BinarizingTagTreeAlgebra");
    assert("de.up.ling.irtg.algebra.BinarizingTagTreeAlgebra"@.len() == 48);
    reveal_strlit("de.up.ling.irtg.algebra.BinarizingTagTreeWithAritiesAlgebra");
    assert("de.up.ling.irtg.algebra.BinarizingTagTreeWithAritiesAlgebra"@.len() == 59);
    reveal_strlit("de.up.ling.irtg.algebra.FeatureStructureAlgebra");
    assert("de.up.ling.irtg.algebra.FeatureStructureAlgebra"@.len() == 47);
    reveal_strlit("de.up.ling.irtg.algebra.TreeWithAritiesAlgebra");
    assert("de.up.ling.irtg.algebra.TreeWithAritiesAlgebra"@.len() == 46);
    reveal_strlit("de.up.ling.irtg.algebra.BinarizingTreeWithAritiesAlgebra");
    assert("de.up.ling.irtg.algebra.BinarizingTreeWithAritiesAlgebra"@.len() == 56);
}

/// A built grammar has one interpretation for every declared name, with the class and the
/// use that were declared last.
pub proof fn law_interpretations_are_as_declared(ast: IrtgAst, g: Irtg)
    requires
        assemble::build_outcome(ast, Ok::<Irtg, IrtgError>(g)),
    ensures
        forall|k: int|
            #![trigger ast.interpretations[k]]
            0 <= k < ast.interpretations.len() && (forall|j: int|
                k < j < ast.interpretations.len() ==> (#[trigger] ast.interpretations[j]).0
                    != ast.interpretations[k].0) ==> exists|s: int|
                0 <= s < g@.interpretations.len() && (#[trigger] g@.interpretations[s]).name
                    == ast.interpretations[k].0 && g@.interpretations[s].class_name
                    == ast.interpretations[k].1 && Some(g@.interpretations[s].kind)
                    == grammar::kind_of(ast.interpretations[k].1),
        forall|s: int|
            0 <= s < g@.interpretations.len() ==> exists|k: int|
                0 <= k < ast.interpretations.len() && (#[trigger] ast.interpretations[k]).0 == (
                #[trigger] g@.interpretations[s]).name,
        forall|s: int, t: int|
            0 <= s < t < g@.interpretations.len() ==> (#[trigger] g@.interpretations[s]).name != (
            #[trigger] g@.interpretations[t]).name,
{
    let decls = ast.interpretations;
    let slots = draft::slots_of(decls);
    let d = draft::drafted(slots, ast.rules).0;
    lemma_slots_differ(decls);
    assert forall|k: int|
        #![trigger ast.interpretations[k]]
        0 <= k < decls.len() && (forall|j: int|
            k < j < decls.len() ==> (#[trigger] decls[j]).0 != decls[k].0) implies exists|s: int|
        0 <= s < g@.interpretations.len() && (#[trigger] g@.interpretations[s]).name == decls[k].0
            && g@.interpretations[s].class_name == decls[k].1 && Some(
            g@.interpretations[s].kind,
        ) == grammar::kind_of(decls[k].1) by {
        let s = lemma_last_declared(decls, k);
        assert(g@.interpretations[s] == assemble::interpretation_at(decls, d, s));
        assert(assemble::decl_fault(decls, d, k) is None);
    }
    assert forall|s: int| 0 <= s < g@.interpretations.len() implies exists|k: int|
        0 <= k < decls.len() && (#[trigger] decls[k]).0 == (
        #[trigger] g@.interpretations[s]).name by {
        let k = assemble::lemma_slot_declared(decls, s);
        assert(decls[k].0 == g@.interpretations[s].name);
    }
    assert forall|s: int, t: int| 0 <= s < t < g@.interpretations.len() implies (
    #[trigger] g@.interpretations[s]).name != (#[trigger] g@.interpretations[t]).name by {
        assert(slots[s].0 != slots[t].0);
    }
}

/// The last declaration of a name stands at its place.
proof fn lemma_last_declared(decls: Seq<(Seq<char>, Seq<char>)>, k: int) -> (s: int)
    requires
        0 <= k < decls.len(),
        forall|j: int| k < j < decls.len() ==> (#[trigger] decls[j]).0 != decls[k].0,
    ensures
        0 <= s < draft::slots_of(decls).len(),
        draft::slots_of(decls)[s] == decls[k],
    decreases decls.len(),
{
    let front = decls.drop_last();
    let before = draft::slots_of(front);
    if k == decls.len() - 1 {
        match draft::slot_of(before, decls.last().0) {
            Some(i) => i,
            None => before.len() as int,
        }
    } else {
        assert forall|j: int| k < j < front.len() implies (#[trigger] front[j]).0 != front[k].0 by {
            assert(decls[j].0 != decls[k].0);
        }
        let s = lemma_last_declared(front, k);
        assert(decls[decls.len() - 1].0 != decls[k].0);
        s
    }
}

/// What stands before the first occurrence of a character.
proof fn lemma_before(s: Seq<char>, c: char, rest: Seq<char>)
    requires
        !s.contains(c),
        rest.len() == 0 || rest[0] == c,
    ensures
        crate::text::before_char(s + rest, c) == s,
    decreases s.len(),
{
    let all = s + rest;
    if s.len() == 0 {
        assert(all =~= rest);
        assert(crate::text::before_char(all, c) =~= s);
    } else {
        assert(s.contains(s[0]));
        assert forall|i: int| 0 <= i < s.skip(1).len() implies s.skip(1)[i] != c by {
            assert(s.contains(s[i + 1]));
        }
        lemma_before(s.skip(1), c, rest);
        assert(all.skip(1) =~= s.skip(1) + rest);
        assert(seq![s[0]] + s.skip(1) =~= s);
    }
}

/// The older name `emba_top_bottom` of an operation is read as the renaming of the root to
/// `top` and of the foot to `bottom`; any other name is read as it stands.
pub proof fn law_older_operation_names(label: Seq<char>, top: Seq<char>, bottom: Seq<char>)
    ensures
        !top.contains('_') && !bottom.contains('_') ==> lowering::current_label(
            "emba_"@ + top + "_"@ + bottom,
        ) == "remap_root="@ + top + ",foot="@ + bottom,
        !"emba_"@.is_prefix_of(label) ==> lowering::current_label(label) == label,
{
    reveal_strlit("emba_");
    reveal_strlit("_");
    if !"emba_"@.is_prefix_of(label) {
        if crate::text::stands_at(label, "emba_"@, 0) {
            assert(label.subrange(0, 5) =~= "emba_"@);
        }
    }
    if !top.contains('_') && !bottom.contains('_') {
        let whole = "emba_"@ + top + "_"@ + bottom;
        let rest = whole.skip(5);
        assert(rest =~= top + "_"@ + bottom);
        assert(whole.subrange(0, 5) =~= "emba_"@);
        lemma_before(top, '_', "_"@ + bottom);
        assert(rest =~= top + ("_"@ + bottom));
        assert(rest.skip((top.len() + 1) as int) =~= bottom);
        lemma_before(bottom, '_', Seq::empty());
        assert(bottom + Seq::<char>::empty() =~= bottom);
    }
}

} // verus!
