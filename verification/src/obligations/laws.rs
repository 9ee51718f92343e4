//! Why the tables of obligatory leaves may be used to discard partial parses.
use crate::obligations::bag;
use crate::obligations::needs;
use crate::obligations::needs::{Need, Tok, TokenRule};
use vstd::prelude::*;

verus! {

/// A derivation over flattened rules: the rule at the root, and for every token that
/// stands for a child the derivation of that child. The parts at other tokens do not
/// matter.
pub struct Parse {
    pub rule: int,
    pub parts: Seq<Parse>,
}

/// Whether `p` derives state `x`.
pub open spec fn is_parse(rules: Seq<TokenRule>, p: Parse, x: int) -> bool
    decreases p,
{
    &&& 0 <= p.rule < rules.len()
    &&& rules[p.rule].result == x
    &&& p.parts.len() == rules[p.rule].tokens.len()
    &&& forall|k: int|
        0 <= k < p.parts.len() && rules[p.rule].tokens[k] is Child ==> is_parse(
            rules,
            #[trigger] p.parts[k],
            rules[p.rule].tokens[k]->Child_0 as int,
        )
}

/// How often a leaf occurs in the yield of a derivation.
pub open spec fn leaves(rules: Seq<TokenRule>, p: Parse, s: u32) -> nat
    decreases p,
{
    parts_leaves(rules, rules[p.rule].tokens, p.parts, s)
}

/// How often a leaf occurs in the yield of tokens with the given derivations.
pub open spec fn parts_leaves(
    rules: Seq<TokenRule>,
    tokens: Seq<Tok>,
    parts: Seq<Parse>,
    s: u32,
) -> nat
    decreases parts,
{
    if parts.len() == 0 {
        0
    } else {
        parts_leaves(rules, tokens.drop_last(), parts.drop_last(), s) + match tokens.last() {
            Tok::Word(w) => if w == s {
                1nat
            } else {
                0nat
            },
            Tok::Child(_) => leaves(rules, parts.last(), s),
        }
    }
}

/// Whether `parts` derives the children among the tokens.
pub open spec fn are_parts(rules: Seq<TokenRule>, tokens: Seq<Tok>, parts: Seq<Parse>) -> bool {
    &&& parts.len() == tokens.len()
    &&& forall|k: int|
        0 <= k < parts.len() && tokens[k] is Child ==> is_parse(
            rules,
            #[trigger] parts[k],
            tokens[k]->Child_0 as int,
        )
}

/// Every derivation of a state contains the leaves that a closed table demands inside
/// that state; so the greatest one demands nothing that a derivation could lack.
pub proof fn law_inside_is_obligatory(
    rules: Seq<TokenRule>,
    t: Seq<Need>,
    p: Parse,
    x: int,
    s: u32,
)
    requires
        needs::rules_below(rules, t.len()),
        needs::inside_closed(rules, t),
        is_parse(rules, p, x),
    ensures
        t[x] is Some,
        (t[x]->0)(s) <= leaves(rules, p, s),
    decreases p,
{
    let rule = rules[p.rule];
    assert(needs::rule_below(rule, t.len()));
    assert(needs::le(t[rule.result], needs::need_of(rule.tokens, t)));
    lemma_parts(rules, t, rule.tokens, p.parts, s);
    assert((t[x]->0)(s) <= (needs::need_of(rule.tokens, t)->0)(s));
}

proof fn lemma_parts(
    rules: Seq<TokenRule>,
    t: Seq<Need>,
    tokens: Seq<Tok>,
    parts: Seq<Parse>,
    s: u32,
)
    requires
        needs::rules_below(rules, t.len()),
        needs::inside_closed(rules, t),
        are_parts(rules, tokens, parts),
    ensures
        needs::need_of(tokens, t) is Some,
        (needs::need_of(tokens, t)->0)(s) <= parts_leaves(rules, tokens, parts, s),
    decreases parts,
{
    if parts.len() > 0 {
        let n = parts.len() - 1;
        let fewer = parts.drop_last();
        let shorter = tokens.drop_last();
        assert(are_parts(rules, shorter, fewer)) by {
            assert forall|k: int| 0 <= k < fewer.len() && shorter[k] is Child implies is_parse(
                rules,
                #[trigger] fewer[k],
                shorter[k]->Child_0 as int,
            ) by {
                assert(fewer[k] == parts[k]);
                assert(shorter[k] == tokens[k]);
            }
        }
        lemma_parts(rules, t, shorter, fewer, s);
        if tokens[n] is Child {
            assert(is_parse(rules, parts[n], tokens[n]->Child_0 as int));
            law_inside_is_obligatory(rules, t, parts[n], tokens[n]->Child_0 as int, s);
        }
    }
}

/// One step down in a derivation: the rule, the position of the child, and the
/// derivations of all children.
pub struct Descent {
    pub rule: int,
    pub position: int,
    pub parts: Seq<Parse>,
}

/// Whether `steps` leads from state `root` down to state `x`.
pub open spec fn leads_to(
    rules: Seq<TokenRule>,
    root: int,
    steps: Seq<Descent>,
    x: int,
) -> bool
    decreases steps.len(),
{
    if steps.len() == 0 {
        x == root
    } else {
        let last = steps.last();
        &&& 0 <= last.rule < rules.len()
        &&& 0 <= last.position < rules[last.rule].tokens.len()
        &&& rules[last.rule].tokens[last.position] is Child
        &&& rules[last.rule].tokens[last.position]->Child_0 == x
        &&& are_parts(rules, rules[last.rule].tokens, last.parts)
        &&& leads_to(rules, root, steps.drop_last(), rules[last.rule].result)
    }
}

/// The derivations on one side of a position.
pub open spec fn side_parts(parts: Seq<Parse>, p: int, left: bool) -> Seq<Parse> {
    if left {
        parts.take(p)
    } else {
        parts.skip(p + 1)
    }
}

/// How often a leaf occurs on one side of the state that `steps` leads to.
pub open spec fn side_leaves(
    rules: Seq<TokenRule>,
    steps: Seq<Descent>,
    left: bool,
    s: u32,
) -> nat
    decreases steps.len(),
{
    if steps.len() == 0 {
        0
    } else {
        let last = steps.last();
        side_leaves(rules, steps.drop_last(), left, s) + parts_leaves(
            rules,
            needs::side(rules[last.rule].tokens, last.position, left),
            side_parts(last.parts, last.position, left),
            s,
        )
    }
}

/// Every completion of a state has, on each side of it, the leaves that a closed table
/// demands there.
pub proof fn law_outside_is_obligatory(
    rules: Seq<TokenRule>,
    roots: Seq<usize>,
    inside: Seq<Need>,
    left: bool,
    t: Seq<Need>,
    root: usize,
    steps: Seq<Descent>,
    x: int,
    s: u32,
)
    requires
        needs::rules_below(rules, t.len()),
        t.len() == inside.len(),
        needs::inside_closed(rules, inside),
        needs::outside_closed(rules, roots, inside, left, t),
        roots.contains(root),
        leads_to(rules, root as int, steps, x),
    ensures
        t[x] is Some,
        (t[x]->0)(s) <= side_leaves(rules, steps, left, s),
    decreases steps.len(),
{
    if steps.len() == 0 {
        let k = choose|k: int| 0 <= k < roots.len() && roots[k] == root;
        assert(needs::le(t[roots[k] as int], Some(bag::none_at_all())));
        assert((t[x]->0)(s) <= bag::none_at_all()(s));
    } else {
        let last = steps.last();
        let rule = rules[last.rule];
        law_outside_is_obligatory(
            rules,
            roots,
            inside,
            left,
            t,
            root,
            steps.drop_last(),
            rule.result,
            s,
        );
        lemma_parts(rules, inside, rule.tokens, last.parts, s);
        assert(needs::passes_down(rules, inside, last.rule, last.position));
        assert(needs::child_at(rules, last.rule, last.position) == x);
        let made = needs::side_need(rule, last.position, left, inside, t);
        assert(needs::le(t[x], made));
        let tokens = needs::side(rule.tokens, last.position, left);
        let parts = side_parts(last.parts, last.position, left);
        assert(are_parts(rules, tokens, parts)) by {
            assert forall|k: int| 0 <= k < parts.len() && tokens[k] is Child implies is_parse(
                rules,
                #[trigger] parts[k],
                tokens[k]->Child_0 as int,
            ) by {
                let j = if left {
                    k
                } else {
                    k + last.position + 1
                };
                assert(parts[k] == last.parts[j]);
                assert(tokens[k] == rule.tokens[j]);
            }
        }
        lemma_parts(rules, inside, tokens, parts, s);
        assert((t[x]->0)(s) <= (made->0)(s));
    }
}

} // verus!
