//! What flattened rules and the tables made of them say of a grammar's derivations.
use crate::apply;
use crate::apply::SymbolTree;
use crate::automaton;
use crate::automaton::RuleModel;
use crate::explicit::Explicit;
use crate::homomorphism::{HomModel, HomomorphismError};
use crate::ids::StateId;
use crate::obligations::filter;
use crate::obligations::flatten;
use crate::obligations::laws;
use crate::obligations::laws::{Descent, Parse};
use crate::obligations::needs;
use crate::obligations::needs::{Need, Tok, TokenRule};
use crate::pair_chart;
use crate::recognition;
use crate::terms::Term;
use vstd::prelude::*;

verus! {

/// The leaves of a tree from left to right.
pub open spec fn tree_leaves(t: SymbolTree) -> Seq<u32>
    decreases t,
{
    if t.children.len() == 0 {
        seq![t.symbol.0]
    } else {
        forest_leaves(t.children)
    }
}

/// The leaves of trees, one tree after the other.
pub open spec fn forest_leaves(ts: Seq<SymbolTree>) -> Seq<u32>
    decreases ts,
{
    if ts.len() == 0 {
        Seq::empty()
    } else {
        forest_leaves(ts.drop_last()) + tree_leaves(ts.last())
    }
}

/// The words of a derivation over flattened rules: its tokens from left to right, with the
/// words of a child's derivation in place of the child.
pub open spec fn parse_words(rules: Seq<TokenRule>, p: Parse) -> Seq<u32>
    decreases p,
{
    parts_words(rules, rules[p.rule].tokens, p.parts)
}

/// The words of tokens with the given derivations of children.
pub open spec fn parts_words(rules: Seq<TokenRule>, tokens: Seq<Tok>, parts: Seq<Parse>) -> Seq<u32>
    decreases parts,
{
    if parts.len() == 0 {
        Seq::empty()
    } else {
        parts_words(rules, tokens.drop_last(), parts.drop_last()) + match tokens.last() {
            Tok::Word(w) => seq![w],
            Tok::Child(_) => parse_words(rules, parts.last()),
        }
    }
}

proof fn lemma_parts_words_add(
    rules: Seq<TokenRule>,
    a: Seq<Tok>,
    x: Seq<Parse>,
    b: Seq<Tok>,
    y: Seq<Parse>,
)
    requires
        a.len() == x.len(),
        b.len() == y.len(),
    ensures
        parts_words(rules, a + b, x + y) == parts_words(rules, a, x) + parts_words(rules, b, y),
    decreases y.len(),
{
    if y.len() == 0 {
        assert(a + b =~= a);
        assert(x + y =~= x);
        assert(parts_words(rules, b, y) =~= Seq::empty());
        assert(parts_words(rules, a, x) + Seq::<u32>::empty() =~= parts_words(rules, a, x));
    } else {
        lemma_parts_words_add(rules, a, x, b.drop_last(), y.drop_last());
        assert((a + b).drop_last() =~= a + b.drop_last());
        assert((x + y).drop_last() =~= x + y.drop_last());
        assert((a + b).last() == b.last());
        assert((x + y).last() == y.last());
        assert(parts_words(rules, a + b, x + y) =~= parts_words(rules, a, x) + parts_words(
            rules,
            b,
            y,
        ));
    }
}

proof fn lemma_forest_leaves_push(ts: Seq<SymbolTree>, t: SymbolTree)
    ensures
        forest_leaves(ts.push(t)) == forest_leaves(ts) + tree_leaves(t),
{
    assert(ts.push(t).drop_last() =~= ts);
}

/// Whether derivations of children have the words of the children's images.
spec fn kids_fit(
    rules: Seq<TokenRule>,
    states: Seq<StateId>,
    kids: Seq<Parse>,
    args: Seq<SymbolTree>,
) -> bool {
    &&& kids.len() == states.len()
    &&& args.len() == states.len()
    &&& forall|c: int|
        0 <= c < kids.len() ==> laws::is_parse(rules, #[trigger] kids[c], states[c].0 as int)
            && parse_words(rules, kids[c]) == tree_leaves(args[c])
}

/// The tokens of a term with the derivations of its children have the leaves of the term
/// with the children's images put in.
proof fn lemma_term_words(
    rules: Seq<TokenRule>,
    t: Term,
    states: Seq<StateId>,
    kids: Seq<Parse>,
    args: Seq<SymbolTree>,
) -> (parts: Seq<Parse>)
    requires
        kids_fit(rules, states, kids, args),
        apply::substitute(t, args) is Ok,
    ensures
        laws::are_parts(rules, flatten::term_yield(t, states), parts),
        parts_words(rules, flatten::term_yield(t, states), parts) == tree_leaves(
            apply::substitute(t, args)->Ok_0,
        ),
    decreases t, 0int,
{
    let tokens = flatten::term_yield(t, states);
    match t {
        Term::Var(v) => {
            let parts = seq![kids[v as int]];
            assert(laws::is_parse(rules, kids[v as int], states[v as int].0 as int));
            assert(tokens.drop_last() =~= Seq::empty());
            assert(parts.drop_last() =~= Seq::empty());
            assert(parts_words(rules, tokens.drop_last(), parts.drop_last()) =~= Seq::empty());
            assert(parts_words(rules, tokens, parts) =~= parse_words(rules, kids[v as int]));
            parts
        },
        Term::App(f, list) => {
            if list.len() == 0 {
                let parts = seq![Parse { rule: 0, parts: Seq::empty() }];
                assert(tokens.drop_last() =~= Seq::empty());
                assert(parts.drop_last() =~= Seq::empty());
                assert(parts_words(rules, tokens.drop_last(), parts.drop_last()) =~= Seq::empty());
                assert(parts_words(rules, tokens, parts) =~= seq![f.0]);
                parts
            } else {
                lemma_list_words(rules, t, list, states, kids, args)
            }
        },
    }
}

proof fn lemma_list_words(
    rules: Seq<TokenRule>,
    whole: Term,
    list: Seq<Term>,
    states: Seq<StateId>,
    kids: Seq<Parse>,
    args: Seq<SymbolTree>,
) -> (parts: Seq<Parse>)
    requires
        kids_fit(rules, states, kids, args),
        apply::substitute_list(list, args) is Ok,
        whole matches Term::App(f, all) && list.len() <= all.len() && forall|i: int|
            0 <= i < list.len() ==> list[i] == #[trigger] all[i],
    ensures
        laws::are_parts(rules, flatten::list_yield(list, states), parts),
        parts_words(rules, flatten::list_yield(list, states), parts) == forest_leaves(
            apply::substitute_list(list, args)->Ok_0,
        ),
        apply::substitute_list(list, args)->Ok_0.len() == list.len(),
    decreases whole, 0int, list.len(),
{
    if list.len() == 0 {
        Seq::empty()
    } else {
        let front = list.drop_last();
        let last = list.last();
        let all = whole->App_1;
        let n = list.len() - 1;
        assert(last == all[n]);
        assert forall|i: int| 0 <= i < front.len() implies front[i] == #[trigger] all[i] by {
            assert(list[i] == all[i]);
        }
        let before = lemma_list_words(rules, whole, front, states, kids, args);
        let more = lemma_term_words(rules, last, states, kids, args);
        let head = flatten::list_yield(front, states);
        let tail = flatten::term_yield(last, states);
        assert(list =~= front.push(last));
        flatten::lemma_list_yield_push(front, last, states);
        let parts = before + more;
        let tokens = head + tail;
        assert(flatten::list_yield(list, states) == tokens);
        assert forall|k: int| 0 <= k < parts.len() && tokens[k] is Child implies laws::is_parse(
            rules,
            #[trigger] parts[k],
            tokens[k]->Child_0 as int,
        ) by {
            if k < before.len() {
                assert(parts[k] == before[k]);
                assert(tokens[k] == head[k]);
            } else {
                assert(parts[k] == more[k - before.len()]);
                assert(tokens[k] == tail[k - before.len()]);
            }
        }
        lemma_parts_words_add(rules, head, before, tail, more);
        let made = apply::substitute_list(front, args)->Ok_0;
        lemma_forest_leaves_push(made, apply::substitute(last, args)->Ok_0);
        parts
    }
}

/// A rule that is kept stands among the flattened ones.
proof fn lemma_flat_rule(rules: Seq<RuleModel>, hom: HomModel, n: nat, i: int) -> (f: int)
    requires
        0 <= i < rules.len(),
        flatten::is_kept(rules[i], hom, n),
    ensures
        0 <= f < flatten::flat_rules(rules, hom, n).len(),
        flatten::flat_rules(rules, hom, n)[f] == flatten::flat_rule(rules[i], hom),
    decreases rules.len(),
{
    let front = rules.drop_last();
    if i == rules.len() - 1 {
        flatten::flat_rules(front, hom, n).len() as int
    } else {
        assert(front[i] == rules[i]);
        lemma_flat_rule(front, hom, n, i)
    }
}

proof fn lemma_images(hom: HomModel, ts: Seq<SymbolTree>)
    ensures
        apply::images_of(hom, ts) matches Ok(us) ==> us.len() == ts.len() && forall|c: int|
            0 <= c < ts.len() ==> apply::image_of(hom, #[trigger] ts[c]) == Ok::<
                SymbolTree,
                HomomorphismError,
            >(us[c]),
    decreases ts.len(),
{
    if ts.len() > 0 {
        lemma_images(hom, ts.drop_last());
        if let Ok(us) = apply::images_of(hom, ts) {
            let front = apply::images_of(hom, ts.drop_last())->Ok_0;
            assert forall|c: int| 0 <= c < ts.len() implies apply::image_of(hom, #[trigger] ts[c])
                == Ok::<SymbolTree, HomomorphismError>(us[c]) by {
                if c < front.len() {
                    assert(ts.drop_last()[c] == ts[c]);
                }
            }
        }
    }
}

/// Whether a derivation over the flattened rules of a grammar has the given words.
pub open spec fn yields(
    grammar: &Explicit,
    hom: HomModel,
    n: nat,
    p: Parse,
    q: StateId,
    words: Seq<u32>,
) -> bool {
    let rules = flatten::flat_rules(grammar@.rules, hom, n);
    laws::is_parse(rules, p, q.0 as int) && parse_words(rules, p) == words
}

/// For every derivation of a grammar whose image is defined there is a derivation over the
/// flattened rules, of the same state, whose words are the leaves of the image from left to
/// right.
pub proof fn law_flattened_rules_have_the_words_of_images(
    grammar: &Explicit,
    hom: HomModel,
    n: nat,
    t: SymbolTree,
    q: StateId,
    image: SymbolTree,
)
    requires
        grammar@.well_formed(),
        grammar@.states <= n,
        recognition::reaches(grammar, t, q),
        apply::image_of(hom, t) == Ok::<SymbolTree, HomomorphismError>(image),
    ensures
        exists|p: Parse| #[trigger] yields(grammar, hom, n, p, q, tree_leaves(image)),
{
    let p = lemma_parse_of(grammar, hom, n, t, q, image);
    assert(yields(grammar, hom, n, p, q, tree_leaves(image)));
}

proof fn lemma_parse_of(
    grammar: &Explicit,
    hom: HomModel,
    n: nat,
    t: SymbolTree,
    q: StateId,
    image: SymbolTree,
) -> (p: Parse)
    requires
        grammar@.well_formed(),
        grammar@.states <= n,
        recognition::reaches(grammar, t, q),
        apply::image_of(hom, t) == Ok::<SymbolTree, HomomorphismError>(image),
    ensures
        yields(grammar, hom, n, p, q, tree_leaves(image)),
    decreases t,
{
    let rules = grammar@.rules;
    let flat = flatten::flat_rules(rules, hom, n);
    let states = recognition::lemma_reaches(grammar, t, q);
    let i = choose|i: int|
        0 <= i < rules.len() && automaton::applies(#[trigger] rules[i], t.symbol, states)
            && rules[i].result == q;
    pair_chart::lemma_rule_states(grammar@, i);
    let rule = rules[i];
    assert(flatten::is_kept(rule, hom, n)) by {
        assert forall|c: int| 0 <= c < rule.children.len() implies flatten::ordinary(
            #[trigger] rule.children[c],
            n,
        ) by {
            assert(rule.children[c].0 < grammar@.states);
        }
    }
    let f = lemma_flat_rule(rules, hom, n, i);
    let args = apply::images_of(hom, t.children)->Ok_0;
    lemma_images(hom, t.children);
    let kids = Seq::new(
        states.len(),
        |c: int|
            choose|p: Parse| #[trigger]
                yields(grammar, hom, n, p, states[c], tree_leaves(args[c])),
    );
    assert forall|c: int| 0 <= c < kids.len() implies laws::is_parse(
        flat,
        #[trigger] kids[c],
        states[c].0 as int,
    ) && parse_words(flat, kids[c]) == tree_leaves(args[c]) by {
        assert(apply::image_of(hom, t.children[c]) == Ok::<SymbolTree, HomomorphismError>(args[c]));
        let p = lemma_parse_of(grammar, hom, n, t.children[c], states[c], args[c]);
        assert(yields(grammar, hom, n, kids[c], states[c], tree_leaves(args[c])));
    }
    let term = hom.image(t.symbol);
    let parts = lemma_term_words(flat, term, states, kids, args);
    let p = Parse { rule: f, parts };
    assert(flat[f].tokens == flatten::term_yield(term, states));
    assert(laws::is_parse(flat, p, q.0 as int)) by {
        assert forall|k: int| 0 <= k < parts.len() && flat[f].tokens[k] is Child implies
            laws::is_parse(flat, #[trigger] p.parts[k], flat[f].tokens[k]->Child_0 as int) by {
            assert(p.parts[k] == parts[k]);
        }
    }
    p
}

/// The part of a derivation at the end of a path of token positions.
pub open spec fn part_at(p: Parse, path: Seq<int>) -> Parse
    decreases path.len(),
{
    if path.len() == 0 {
        p
    } else {
        part_at(p, path.drop_last()).parts[path.last()]
    }
}

/// Whether a path leads from child to child.
pub open spec fn is_path(rules: Seq<TokenRule>, p: Parse, path: Seq<int>) -> bool
    decreases path.len(),
{
    path.len() == 0 || {
        let above = part_at(p, path.drop_last());
        &&& is_path(rules, p, path.drop_last())
        &&& 0 <= path.last() < above.parts.len()
        &&& rules[above.rule].tokens[path.last()] is Child
    }
}

/// The words of a derivation to the left of the part at the end of a path.
pub open spec fn words_before(rules: Seq<TokenRule>, p: Parse, path: Seq<int>) -> Seq<u32>
    decreases path.len(),
{
    if path.len() == 0 {
        Seq::empty()
    } else {
        let above = part_at(p, path.drop_last());
        words_before(rules, p, path.drop_last()) + parts_words(
            rules,
            rules[above.rule].tokens.take(path.last()),
            above.parts.take(path.last()),
        )
    }
}

/// The words of a derivation to the right of the part at the end of a path.
pub open spec fn words_after(rules: Seq<TokenRule>, p: Parse, path: Seq<int>) -> Seq<u32>
    decreases path.len(),
{
    if path.len() == 0 {
        Seq::empty()
    } else {
        let above = part_at(p, path.drop_last());
        parts_words(
            rules,
            rules[above.rule].tokens.skip(path.last() + 1),
            above.parts.skip(path.last() + 1),
        ) + words_after(rules, p, path.drop_last())
    }
}

/// The steps along a path.
spec fn steps_along(rules: Seq<TokenRule>, p: Parse, path: Seq<int>) -> Seq<Descent>
    decreases path.len(),
{
    if path.len() == 0 {
        Seq::empty()
    } else {
        let above = part_at(p, path.drop_last());
        steps_along(rules, p, path.drop_last()).push(
            Descent { rule: above.rule, position: path.last(), parts: above.parts },
        )
    }
}

/// The state of the part at the end of a path.
pub open spec fn state_at(rules: Seq<TokenRule>, p: Parse, path: Seq<int>) -> int {
    rules[part_at(p, path).rule].result
}

/// The words of a derivation are those before a part, those of the part and those after it.
pub proof fn law_words_surround_every_part(
    rules: Seq<TokenRule>,
    p: Parse,
    x: int,
    path: Seq<int>,
)
    requires
        laws::is_parse(rules, p, x),
        is_path(rules, p, path),
    ensures
        laws::is_parse(rules, part_at(p, path), state_at(rules, p, path)),
        parse_words(rules, p) == words_before(rules, p, path) + parse_words(
            rules,
            part_at(p, path),
        ) + words_after(rules, p, path),
    decreases path.len(),
{
    if path.len() == 0 {
        assert(parse_words(rules, p) =~= words_before(rules, p, path) + parse_words(
            rules,
            part_at(p, path),
        ) + words_after(rules, p, path));
    } else {
        let front = path.drop_last();
        let k = path.last();
        law_words_surround_every_part(rules, p, x, front);
        let above = part_at(p, front);
        let tokens = rules[above.rule].tokens;
        let part = above.parts[k];
        assert(laws::is_parse(rules, part, tokens[k]->Child_0 as int));
        let one = seq![tokens[k]];
        let only = seq![part];
        let left = parts_words(rules, tokens.take(k), above.parts.take(k));
        let right = parts_words(rules, tokens.skip(k + 1), above.parts.skip(k + 1));
        assert(one.drop_last() =~= Seq::empty());
        assert(only.drop_last() =~= Seq::empty());
        assert(parts_words(rules, one.drop_last(), only.drop_last()) =~= Seq::empty());
        assert(parts_words(rules, one, only) =~= parse_words(rules, part));
        lemma_parts_words_add(rules, tokens.take(k), above.parts.take(k), one, only);
        lemma_parts_words_add(
            rules,
            tokens.take(k) + one,
            above.parts.take(k) + only,
            tokens.skip(k + 1),
            above.parts.skip(k + 1),
        );
        assert(tokens =~= tokens.take(k) + one + tokens.skip(k + 1));
        assert(above.parts =~= above.parts.take(k) + only + above.parts.skip(k + 1));
        assert(parse_words(rules, above) =~= left + parse_words(rules, part) + right);
        assert(parse_words(rules, p) =~= words_before(rules, p, path) + parse_words(
            rules,
            part_at(p, path),
        ) + words_after(rules, p, path));
    }
}

proof fn lemma_occurrences_add(a: Seq<u32>, b: Seq<u32>, s: u32)
    ensures
        filter::occurrences(a + b, s) == filter::occurrences(a, s) + filter::occurrences(b, s),
    decreases b.len(),
{
    if b.len() == 0 {
        assert(a + b =~= a);
    } else {
        assert((a + b).drop_last() =~= a + b.drop_last());
        lemma_occurrences_add(a, b.drop_last(), s);
    }
}

/// Counting the leaves of a derivation counts its words.
proof fn lemma_leaves_count(rules: Seq<TokenRule>, p: Parse, s: u32)
    ensures
        laws::leaves(rules, p, s) == filter::occurrences(parse_words(rules, p), s),
    decreases p,
{
    lemma_parts_count(rules, rules[p.rule].tokens, p.parts, s);
}

proof fn lemma_parts_count(rules: Seq<TokenRule>, tokens: Seq<Tok>, parts: Seq<Parse>, s: u32)
    ensures
        laws::parts_leaves(rules, tokens, parts, s) == filter::occurrences(
            parts_words(rules, tokens, parts),
            s,
        ),
    decreases parts,
{
    if parts.len() > 0 {
        lemma_parts_count(rules, tokens.drop_last(), parts.drop_last(), s);
        let front = parts_words(rules, tokens.drop_last(), parts.drop_last());
        match tokens.last() {
            Tok::Word(w) => {
                lemma_occurrences_add(front, seq![w], s);
                assert(seq![w].drop_last() =~= Seq::empty());
                assert(filter::occurrences(seq![w].drop_last(), s) == 0);
            },
            Tok::Child(_) => {
                lemma_leaves_count(rules, parts.last(), s);
                lemma_occurrences_add(front, parse_words(rules, parts.last()), s);
            },
        }
    }
}

/// The steps along a path lead to its end, with the words beside it.
proof fn lemma_steps(rules: Seq<TokenRule>, p: Parse, x: int, path: Seq<int>)
    requires
        laws::is_parse(rules, p, x),
        is_path(rules, p, path),
    ensures
        laws::leads_to(rules, x, steps_along(rules, p, path), state_at(rules, p, path)),
        forall|s: u32| #[trigger]
            laws::side_leaves(rules, steps_along(rules, p, path), true, s) == filter::occurrences(
                words_before(rules, p, path),
                s,
            ),
        forall|s: u32| #[trigger]
            laws::side_leaves(rules, steps_along(rules, p, path), false, s) == filter::occurrences(
                words_after(rules, p, path),
                s,
            ),
    decreases path.len(),
{
    let steps = steps_along(rules, p, path);
    if path.len() > 0 {
        let front = path.drop_last();
        let k = path.last();
        let above = part_at(p, front);
        law_words_surround_every_part(rules, p, x, front);
        law_words_surround_every_part(rules, p, x, path);
        lemma_steps(rules, p, x, front);
        assert(steps.drop_last() =~= steps_along(rules, p, front));
        let tokens = rules[above.rule].tokens;
        assert(laws::is_parse(rules, above.parts[k], tokens[k]->Child_0 as int));
        assert(laws::are_parts(rules, tokens, above.parts));
        let left = parts_words(rules, tokens.take(k), above.parts.take(k));
        let right = parts_words(rules, tokens.skip(k + 1), above.parts.skip(k + 1));
        assert forall|s: u32| #[trigger] laws::side_leaves(rules, steps, true, s)
            == filter::occurrences(words_before(rules, p, path), s) by {
            lemma_parts_count(rules, tokens.take(k), above.parts.take(k), s);
            lemma_occurrences_add(words_before(rules, p, front), left, s);
            assert(laws::side_leaves(rules, steps.drop_last(), true, s) == filter::occurrences(
                words_before(rules, p, front),
                s,
            ));
        }
        assert forall|s: u32| #[trigger] laws::side_leaves(rules, steps, false, s)
            == filter::occurrences(words_after(rules, p, path), s) by {
            lemma_parts_count(rules, tokens.skip(k + 1), above.parts.skip(k + 1), s);
            lemma_occurrences_add(right, words_after(rules, p, front), s);
            assert(laws::side_leaves(rules, steps.drop_last(), false, s) == filter::occurrences(
                words_after(rules, p, front),
                s,
            ));
        }
    }
}

/// Whether the tables admit every part of a derivation over its span in the sentence: the
/// part at the end of a path has the words before it to its left, and ends where those of
/// the part end.
pub open spec fn spans_admitted(
    rules: Seq<TokenRule>,
    p: Parse,
    left: Seq<Need>,
    right: Seq<Need>,
) -> bool {
    forall|path: Seq<int>| #[trigger]
        is_path(rules, p, path) ==> filter::is_admitted(
            state_at(rules, p, path),
            words_before(rules, p, path).len() as usize,
            (words_before(rules, p, path).len() + parse_words(
                rules,
                part_at(p, path),
            ).len()) as usize,
            parse_words(rules, p),
            left,
            right,
        )
}

/// The tables never discard a part of a derivation of a sentence from an accepting state:
/// each is admitted over its own span.
pub proof fn law_spans_of_derivations_are_admitted(
    rules: Seq<TokenRule>,
    roots: Seq<usize>,
    inside: Seq<Need>,
    left: Seq<Need>,
    right: Seq<Need>,
    root: usize,
    p: Parse,
)
    requires
        needs::rules_below(rules, inside.len()),
        needs::is_inside(rules, inside.len(), inside),
        needs::is_outside(rules, roots, inside, true, left),
        needs::is_outside(rules, roots, inside, false, right),
        roots.contains(root),
        laws::is_parse(rules, p, root as int),
        parse_words(rules, p).len() <= usize::MAX,
    ensures
        spans_admitted(rules, p, left, right),
{
    let words = parse_words(rules, p);
    assert forall|path: Seq<int>| #[trigger] is_path(rules, p, path) implies filter::is_admitted(
        state_at(rules, p, path),
        words_before(rules, p, path).len() as usize,
        (words_before(rules, p, path).len() + parse_words(
            rules,
            part_at(p, path),
        ).len()) as usize,
        words,
        left,
        right,
    ) by {
        let start = words_before(rules, p, path).len() as usize;
        let end = (start + parse_words(rules, part_at(p, path)).len()) as usize;
        law_words_surround_every_part(rules, p, root as int, path);
        lemma_steps(rules, p, root as int, path);
        let before = words_before(rules, p, path);
        let after = words_after(rules, p, path);
        assert(words.take(filter::capped(start, words.len())) =~= before);
        assert(words.skip(filter::capped(end, words.len())) =~= after);
        filter::law_filter_keeps_completable_items(
            rules,
            roots,
            inside,
            left,
            right,
            root,
            steps_along(rules, p, path),
            state_at(rules, p, path),
            start,
            end,
            words,
        );
    }
}

/// Whether a derivation over flattened rules has the given words, and the tables admit all
/// its parts.
pub open spec fn yields_admitted(
    grammar: &Explicit,
    hom: HomModel,
    n: nat,
    p: Parse,
    q: StateId,
    words: Seq<u32>,
    left: Seq<Need>,
    right: Seq<Need>,
) -> bool {
    &&& yields(grammar, hom, n, p, q, words)
    &&& spans_admitted(flatten::flat_rules(grammar@.rules, hom, n), p, left, right)
}

/// No derivation of a sentence is lost to the tables that are made of a grammar's flattened
/// rules: for every derivation of an accepting state, with the leaves of its image as the
/// sentence, there is one over the flattened rules with the same sentence, all of whose parts
/// are admitted over their spans.
pub proof fn law_no_parse_of_a_sentence_is_lost(
    grammar: &Explicit,
    hom: HomModel,
    n: nat,
    roots: Seq<usize>,
    inside: Seq<Need>,
    left: Seq<Need>,
    right: Seq<Need>,
    t: SymbolTree,
    q: StateId,
    image: SymbolTree,
)
    requires
        grammar@.well_formed(),
        grammar@.states <= n,
        recognition::reaches(grammar, t, q),
        grammar@.accepting.contains(q),
        apply::image_of(hom, t) == Ok::<SymbolTree, HomomorphismError>(image),
        tree_leaves(image).len() <= usize::MAX,
        flatten::lists_roots(roots, grammar@.accepting, n),
        needs::rules_below(flatten::flat_rules(grammar@.rules, hom, n), n),
        inside.len() == n,
        needs::is_inside(flatten::flat_rules(grammar@.rules, hom, n), n, inside),
        needs::is_outside(flatten::flat_rules(grammar@.rules, hom, n), roots, inside, true, left),
        needs::is_outside(flatten::flat_rules(grammar@.rules, hom, n), roots, inside, false, right),
    ensures
        exists|p: Parse| #[trigger]
            yields_admitted(grammar, hom, n, p, q, tree_leaves(image), left, right),
{
    let rules = flatten::flat_rules(grammar@.rules, hom, n);
    let p = lemma_parse_of(grammar, hom, n, t, q, image);
    assert(flatten::ordinary(q, n));
    assert(roots.contains(q.0 as usize));
    law_spans_of_derivations_are_admitted(rules, roots, inside, left, right, q.0 as usize, p);
    assert(yields_admitted(grammar, hom, n, p, q, tree_leaves(image), left, right));
}

} // verus!
