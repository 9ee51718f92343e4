//! When the tables of obligatory leaves can be counted.
use crate::obligations::attained;
use crate::obligations::filter;
use crate::obligations::laws;
use crate::obligations::needs;
use crate::obligations::needs::{Need, Tok, TokenRule};
use vstd::prelude::*;

verus! {

/// How many leaves a yield has at most, where `cap` bounds those of the children.
pub open spec fn most(tokens: Seq<Tok>, cap: Seq<nat>) -> nat
    decreases tokens.len(),
{
    if tokens.len() == 0 {
        0
    } else {
        most(tokens.drop_last(), cap) + match tokens.last() {
            Tok::Word(_) => 1nat,
            Tok::Child(x) => cap[x as int],
        }
    }
}

/// Whether no rule makes more than `cap` allows its result.
pub open spec fn bounds_inside(rules: Seq<TokenRule>, cap: Seq<nat>) -> bool {
    &&& forall|i: int|
        0 <= i < rules.len() ==> most((#[trigger] rules[i]).tokens, cap) <= cap[rules[i].result]
    &&& forall|x: int| 0 <= x < cap.len() ==> #[trigger] cap[x] <= u32::MAX
}

/// Whether no rule passes down more than `out` allows a child on one side.
pub open spec fn bounds_outside(
    rules: Seq<TokenRule>,
    cap: Seq<nat>,
    left: bool,
    out: Seq<nat>,
) -> bool {
    &&& forall|i: int, p: int|
        #![trigger rules[i].tokens[p]]
        0 <= i < rules.len() && 0 <= p < rules[i].tokens.len() && rules[i].tokens[p] is Child
            ==> out[rules[i].result] + most(needs::side(rules[i].tokens, p, left), cap)
            <= out[rules[i].tokens[p]->Child_0 as int]
    &&& forall|x: int| 0 <= x < out.len() ==> #[trigger] out[x] <= u32::MAX
}

/// Whether a table stays below a bound.
spec fn within(t: Seq<Need>, cap: Seq<nat>) -> bool {
    t.len() == cap.len() && forall|x: int, s: u32|
        #![trigger cap[x], (t[x]->0)(s)]
        0 <= x < t.len() && t[x] is Some ==> (t[x]->0)(s) <= cap[x]
}

proof fn lemma_most(tokens: Seq<Tok>, t: Seq<Need>, cap: Seq<nat>, s: u32)
    requires
        within(t, cap),
        forall|p: int| 0 <= p < tokens.len() ==> needs::token_below(#[trigger] tokens[p], t.len()),
        needs::need_of(tokens, t) is Some,
    ensures
        (needs::need_of(tokens, t)->0)(s) <= most(tokens, cap),
    decreases tokens.len(),
{
    if tokens.len() > 0 {
        let short = tokens.drop_last();
        assert forall|p: int| 0 <= p < short.len() implies needs::token_below(
            #[trigger] short[p],
            t.len(),
        ) by {
            assert(short[p] == tokens[p]);
        }
        lemma_most(short, t, cap, s);
        assert(needs::token_below(tokens[tokens.len() - 1], t.len()));
        if let Tok::Child(x) = tokens.last() {
            let c = cap[x as int];
            assert((t[x as int]->0)(s) <= c);
        }
    }
}

proof fn lemma_stage(rules: Seq<TokenRule>, cap: Seq<nat>, steps: Seq<int>)
    requires
        needs::rules_below(rules, cap.len()),
        bounds_inside(rules, cap),
        needs::are_rules(rules, steps),
    ensures
        within(needs::inside_stage(rules, cap.len(), steps), cap),
    decreases steps.len(),
{
    if steps.len() > 0 {
        let short = steps.drop_last();
        assert(needs::are_rules(rules, short)) by {
            assert forall|k: int| 0 <= k < short.len() implies 0 <= #[trigger] short[k]
                < rules.len() by {
                assert(short[k] == steps[k]);
            }
        }
        lemma_stage(rules, cap, short);
        let t = needs::inside_stage(rules, cap.len(), short);
        assert(0 <= steps[steps.len() - 1] < rules.len());
        let rule = rules[steps.last()];
        assert(needs::rule_below(rule, cap.len()));
        if needs::need_of(rule.tokens, t) is Some {
            let made = needs::need_of(rule.tokens, t)->0;
            let now = needs::inside_stage(rules, cap.len(), steps);
            assert forall|x: int, s: u32|
                #![trigger cap[x], (now[x]->0)(s)]
                0 <= x < now.len() && now[x] is Some implies (now[x]->0)(s) <= cap[x] by {
                if x == rule.result {
                    lemma_most(rule.tokens, t, cap, s);
                    assert(made(s) <= cap[x]);
                } else {
                    assert((t[x]->0)(s) <= cap[x]);
                }
            }
        }
    }
}

proof fn lemma_side_within(
    rules: Seq<TokenRule>,
    inside: Seq<Need>,
    cap: Seq<nat>,
    left: bool,
    out: Seq<nat>,
    t: Seq<Need>,
    i: int,
    p: int,
    s: u32,
)
    requires
        needs::rules_below(rules, cap.len()),
        within(inside, cap),
        within(t, out),
        t.len() == cap.len(),
        bounds_outside(rules, cap, left, out),
        needs::passes_down(rules, inside, i, p),
        needs::side_need(rules[i], p, left, inside, t) is Some,
    ensures
        (needs::side_need(rules[i], p, left, inside, t)->0)(s) <= out[needs::child_at(
            rules,
            i,
            p,
        )],
{
    let tokens = rules[i].tokens;
    let beside = needs::side(tokens, p, left);
    assert(needs::rule_below(rules[i], cap.len()));
    assert forall|k: int| 0 <= k < beside.len() implies needs::token_below(
        #[trigger] beside[k],
        cap.len(),
    ) by {
        let j = if left {
            k
        } else {
            k + p + 1
        };
        assert(beside[k] == tokens[j]);
    }
    lemma_most(beside, inside, cap, s);
    let base = out[rules[i].result];
    assert((t[rules[i].result]->0)(s) <= base);
    assert(rules[i].tokens[p] is Child);
}

proof fn lemma_seeded(roots: Seq<usize>, out: Seq<nat>, k: nat)
    requires
        k <= roots.len(),
        forall|j: int| 0 <= j < roots.len() ==> (#[trigger] roots[j]) < out.len(),
    ensures
        within(needs::seeded(roots, out.len(), k), out),
    decreases k,
{
    if k > 0 {
        lemma_seeded(roots, out, (k - 1) as nat);
        let before = needs::seeded(roots, out.len(), (k - 1) as nat);
        let now = needs::seeded(roots, out.len(), k);
        assert(roots[k - 1] < out.len());
        assert forall|x: int, s: u32|
            #![trigger out[x], (now[x]->0)(s)]
            0 <= x < now.len() && now[x] is Some implies (now[x]->0)(s) <= out[x] by {
            if x != roots[k - 1] {
                assert((before[x]->0)(s) <= out[x]);
            }
        }
    }
}

proof fn lemma_outside_stage(
    rules: Seq<TokenRule>,
    roots: Seq<usize>,
    inside: Seq<Need>,
    cap: Seq<nat>,
    left: bool,
    out: Seq<nat>,
    steps: Seq<(int, int)>,
)
    requires
        needs::rules_below(rules, cap.len()),
        within(inside, cap),
        out.len() == cap.len(),
        bounds_outside(rules, cap, left, out),
        forall|j: int| 0 <= j < roots.len() ==> (#[trigger] roots[j]) < out.len(),
        needs::all_pass_down(rules, inside, steps),
    ensures
        within(needs::outside_stage(rules, roots, inside, left, steps), out),
    decreases steps.len(),
{
    if steps.len() == 0 {
        lemma_seeded(roots, out, roots.len());
    } else {
        let short = steps.drop_last();
        assert(needs::all_pass_down(rules, inside, short)) by {
            assert forall|k: int| 0 <= k < short.len() implies needs::passes_down(
                rules,
                inside,
                (#[trigger] short[k]).0,
                short[k].1,
            ) by {
                assert(short[k] == steps[k]);
            }
        }
        lemma_outside_stage(rules, roots, inside, cap, left, out, short);
        let t = needs::outside_stage(rules, roots, inside, left, short);
        let now = needs::outside_stage(rules, roots, inside, left, steps);
        let (i, p) = steps[steps.len() - 1];
        assert(needs::passes_down(rules, inside, i, p));
        assert(needs::rule_below(rules[i], cap.len()));
        assert(needs::token_below(rules[i].tokens[p], cap.len()));
        if needs::side_need(rules[i], p, left, inside, t) is Some {
            let c = needs::side_need(rules[i], p, left, inside, t)->0;
            let child = needs::child_at(rules, i, p);
            assert forall|x: int, s: u32|
                #![trigger out[x], (now[x]->0)(s)]
                0 <= x < now.len() && now[x] is Some implies (now[x]->0)(s) <= out[x] by {
                if x == child {
                    lemma_side_within(rules, inside, cap, left, out, t, i, p, s);
                    assert(c(s) <= out[x]);
                } else {
                    assert((t[x]->0)(s) <= out[x]);
                }
            }
        }
    }
}

/// The tables are there whenever the leaves of derivations and of completions are bounded:
/// `cap` bounds those of derivations, `before` and `after` those to the left and right.
pub proof fn law_tables_fit(
    rules: Seq<TokenRule>,
    roots: Seq<usize>,
    cap: Seq<nat>,
    before: Seq<nat>,
    after: Seq<nat>,
)
    requires
        needs::rules_below(rules, cap.len()),
        forall|k: int| 0 <= k < roots.len() ==> (#[trigger] roots[k]) < cap.len(),
        before.len() == cap.len(),
        after.len() == cap.len(),
        bounds_inside(rules, cap),
        bounds_outside(rules, cap, true, before),
        bounds_outside(rules, cap, false, after),
    ensures
        !filter::tables_too_large(rules, cap.len(), roots),
{
    let n = cap.len();
    assert forall|steps: Seq<int>, i: int| !#[trigger] needs::inside_overflow(
        rules,
        n,
        steps,
        i,
    ) by {
        if needs::inside_overflow(rules, n, steps, i) {
            lemma_stage(rules, cap, steps);
            let t = needs::inside_stage(rules, n, steps);
            let c = needs::need_of(rules[i].tokens, t)->0;
            assert(needs::rule_below(rules[i], n));
            assert forall|s: u32| #[trigger] c(s) <= u32::MAX by {
                lemma_most(rules[i].tokens, t, cap, s);
                assert(cap[rules[i].result] <= u32::MAX);
            }
        }
    }
    assert forall|inside: Seq<Need>, left: bool| needs::is_inside(
        rules,
        n,
        inside,
    ) implies !#[trigger] needs::outside_too_large(rules, roots, inside, left) by {
        let out = if left {
            before
        } else {
            after
        };
        lemma_inside_within(rules, cap, inside);
        assert forall|steps: Seq<(int, int)>, i: int, p: int| !#[trigger] needs::outside_overflow(
            rules,
            roots,
            inside,
            left,
            steps,
            i,
            p,
        ) by {
            if needs::outside_overflow(rules, roots, inside, left, steps, i, p) {
                lemma_outside_stage(rules, roots, inside, cap, left, out, steps);
                let t = needs::outside_stage(rules, roots, inside, left, steps);
                let c = needs::side_need(rules[i], p, left, inside, t)->0;
                assert(needs::rule_below(rules[i], n));
                assert(needs::token_below(rules[i].tokens[p], n));
                assert forall|s: u32| #[trigger] c(s) <= u32::MAX by {
                    lemma_side_within(rules, inside, cap, left, out, t, i, p, s);
                    assert(out[needs::child_at(rules, i, p)] <= u32::MAX);
                }
            }
        }
    }
}

/// The greatest table stays below a bound on the leaves of derivations.
proof fn lemma_inside_within(rules: Seq<TokenRule>, cap: Seq<nat>, inside: Seq<Need>)
    requires
        needs::rules_below(rules, cap.len()),
        bounds_inside(rules, cap),
        needs::is_inside(rules, cap.len(), inside),
    ensures
        within(inside, cap),
{
    assert forall|x: int, s: u32|
        #![trigger cap[x], (inside[x]->0)(s)]
        0 <= x < inside.len() && inside[x] is Some implies (inside[x]->0)(s) <= cap[x] by {
        let p = attained::law_inside_is_attained(
            rules,
            cap.len(),
            inside,
            x,
            s,
        );
        lemma_parse_within(rules, cap, p, x, s);
    }
}

proof fn lemma_parse_within(
    rules: Seq<TokenRule>,
    cap: Seq<nat>,
    p: laws::Parse,
    x: int,
    s: u32,
)
    requires
        bounds_inside(rules, cap),
        laws::is_parse(rules, p, x),
    ensures
        laws::leaves(rules, p, s) <= cap[x],
    decreases p,
{
    lemma_yield_within(rules, cap, rules[p.rule].tokens, p.parts, s);
}

proof fn lemma_yield_within(
    rules: Seq<TokenRule>,
    cap: Seq<nat>,
    tokens: Seq<Tok>,
    parts: Seq<laws::Parse>,
    s: u32,
)
    requires
        bounds_inside(rules, cap),
        laws::are_parts(rules, tokens, parts),
    ensures
        laws::parts_leaves(rules, tokens, parts, s) <= most(tokens, cap),
    decreases parts,
{
    if parts.len() > 0 {
        let n = parts.len() - 1;
        let fewer = parts.drop_last();
        let short = tokens.drop_last();
        assert(laws::are_parts(rules, short, fewer)) by {
            assert forall|k: int| 0 <= k < fewer.len() && short[k] is Child implies
                laws::is_parse(
                rules,
                #[trigger] fewer[k],
                short[k]->Child_0 as int,
            ) by {
                assert(fewer[k] == parts[k]);
                assert(short[k] == tokens[k]);
            }
        }
        lemma_yield_within(rules, cap, short, fewer, s);
        if tokens[n] is Child {
            let x = tokens[n]->Child_0 as int;
            assert(laws::is_parse(rules, parts[n], x));
            lemma_parse_within(rules, cap, parts[n], x, s);
        }
    }
}

} // verus!
