//! Why the tables of obligatory leaves demand no less than they could.
use crate::obligations::bag;
use crate::obligations::bag::Counts;
use crate::obligations::laws;
use crate::obligations::laws::{Descent, Parse};
use crate::obligations::needs;
use crate::obligations::needs::{Need, Tok, TokenRule};
use vstd::prelude::*;

verus! {

/// Whether `p` is a derivation of `x` with a leaf as seldom as any.
pub open spec fn is_least(rules: Seq<TokenRule>, x: int, s: u32, p: Parse) -> bool {
    &&& laws::is_parse(rules, p, x)
    &&& forall|o: Parse| #[trigger]
        laws::is_parse(rules, o, x) ==> laws::leaves(rules, p, s) <= laws::leaves(rules, o, s)
}

/// Whether a state has a derivation.
pub open spec fn has_parse(rules: Seq<TokenRule>, x: int) -> bool {
    exists|p: Parse| #[trigger] laws::is_parse(rules, p, x)
}

/// A derivation with a leaf as seldom as any.
spec fn least(rules: Seq<TokenRule>, x: int, s: u32) -> Parse {
    choose|p: Parse| is_least(rules, x, s, p)
}

proof fn lemma_least(rules: Seq<TokenRule>, x: int, s: u32, p: Parse)
    requires
        laws::is_parse(rules, p, x),
    ensures
        is_least(rules, x, s, least(rules, x, s)),
    decreases laws::leaves(rules, p, s),
{
    if !is_least(rules, x, s, p) {
        let o = choose|o: Parse| #[trigger]
            laws::is_parse(rules, o, x) && laws::leaves(rules, o, s) < laws::leaves(rules, p, s);
        lemma_least(rules, x, s, o);
    }
}

/// The fewest leaves that derivations have.
spec fn fewest(rules: Seq<TokenRule>, n: nat) -> Seq<Need> {
    Seq::new(
        n,
        |x: int|
            if has_parse(rules, x) {
                Some(fewest_at(rules, x))
            } else {
                None
            },
    )
}

spec fn fewest_at(rules: Seq<TokenRule>, x: int) -> Counts {
    |s: u32| laws::leaves(rules, least(rules, x, s), s)
}

/// Derivations of children whose leaves are those that a table of fewest leaves gives.
proof fn lemma_fewest_parts(rules: Seq<TokenRule>, n: nat, tokens: Seq<Tok>, s: u32) -> (parts: Seq<
    Parse,
>)
    requires
        forall|p: int| 0 <= p < tokens.len() ==> needs::token_below(#[trigger] tokens[p], n),
        needs::need_of(tokens, fewest(rules, n)) is Some,
    ensures
        laws::are_parts(rules, tokens, parts),
        laws::parts_leaves(rules, tokens, parts, s) == (needs::need_of(
            tokens,
            fewest(rules, n),
        )->0)(s),
    decreases tokens.len(),
{
    if tokens.len() == 0 {
        Seq::empty()
    } else {
        let short = tokens.drop_last();
        assert forall|p: int| 0 <= p < short.len() implies needs::token_below(
            #[trigger] short[p],
            n,
        ) by {
            assert(short[p] == tokens[p]);
        }
        let fewer = lemma_fewest_parts(rules, n, short, s);
        let last = tokens[tokens.len() - 1];
        assert(needs::token_below(last, n));
        let part = match last {
            Tok::Word(_) => Parse { rule: 0, parts: Seq::empty() },
            Tok::Child(x) => least(rules, x as int, s),
        };
        if let Tok::Child(x) = last {
            assert(has_parse(rules, x as int));
            let p = choose|p: Parse| #[trigger] laws::is_parse(rules, p, x as int);
            lemma_least(rules, x as int, s, p);
        }
        let parts = fewer.push(part);
        assert(parts.drop_last() =~= fewer);
        assert forall|k: int| 0 <= k < parts.len() && tokens[k] is Child implies laws::is_parse(
            rules,
            #[trigger] parts[k],
            tokens[k]->Child_0 as int,
        ) by {
            if k < fewer.len() {
                assert(parts[k] == fewer[k]);
                assert(short[k] == tokens[k]);
            }
        }
        parts
    }
}

proof fn lemma_fewest_closed(rules: Seq<TokenRule>, n: nat)
    requires
        needs::rules_below(rules, n),
    ensures
        needs::inside_closed(rules, fewest(rules, n)),
{
    let t = fewest(rules, n);
    assert forall|i: int| 0 <= i < rules.len() implies needs::le(
        t[(#[trigger] rules[i]).result],
        needs::need_of(rules[i].tokens, t),
    ) by {
        let rule = rules[i];
        assert(needs::rule_below(rule, n));
        if needs::need_of(rule.tokens, t) is Some {
            let x = rule.result;
            let made = needs::need_of(rule.tokens, t)->0;
            let some = lemma_fewest_parts(rules, n, rule.tokens, 0);
            assert(laws::is_parse(rules, Parse { rule: i, parts: some }, x));
            assert(has_parse(rules, x));
            assert forall|s: u32| #[trigger] fewest_at(rules, x)(s) <= made(s) by {
                let parts = lemma_fewest_parts(rules, n, rule.tokens, s);
                let p = Parse { rule: i, parts };
                assert(laws::is_parse(rules, p, x));
                lemma_least(rules, x, s, p);
            }
        }
    }
}

/// What the table demands inside a state is the least that derivations have: for every leaf
/// some derivation has it just as often.
pub proof fn law_inside_is_attained(
    rules: Seq<TokenRule>,
    n: nat,
    t: Seq<Need>,
    x: int,
    s: u32,
) -> (p: Parse)
    requires
        needs::rules_below(rules, n),
        needs::is_inside(rules, n, t),
        0 <= x < n,
        t[x] is Some,
    ensures
        laws::is_parse(rules, p, x),
        laws::leaves(rules, p, s) == (t[x]->0)(s),
{
    let f = fewest(rules, n);
    lemma_fewest_closed(rules, n);
    assert(needs::table_le(f, t));
    assert(needs::le(f[x], t[x]));
    assert(has_parse(rules, x));
    let some = choose|p: Parse| #[trigger] laws::is_parse(rules, p, x);
    lemma_least(rules, x, s, some);
    let p = least(rules, x, s);
    assert((f[x]->0)(s) <= (t[x]->0)(s));
    laws::law_inside_is_obligatory(rules, t, p, x, s);
    p
}

/// Derivations of the children among tokens with as many leaves as the table demands.
proof fn lemma_table_parts(
    rules: Seq<TokenRule>,
    n: nat,
    t: Seq<Need>,
    tokens: Seq<Tok>,
    s: u32,
) -> (parts: Seq<Parse>)
    requires
        needs::rules_below(rules, n),
        needs::is_inside(rules, n, t),
        forall|p: int| 0 <= p < tokens.len() ==> needs::token_below(#[trigger] tokens[p], n),
        needs::need_of(tokens, t) is Some,
    ensures
        laws::are_parts(rules, tokens, parts),
        laws::parts_leaves(rules, tokens, parts, s) == (needs::need_of(tokens, t)->0)(s),
    decreases tokens.len(),
{
    if tokens.len() == 0 {
        Seq::empty()
    } else {
        let short = tokens.drop_last();
        assert forall|p: int| 0 <= p < short.len() implies needs::token_below(
            #[trigger] short[p],
            n,
        ) by {
            assert(short[p] == tokens[p]);
        }
        let fewer = lemma_table_parts(rules, n, t, short, s);
        let last = tokens[tokens.len() - 1];
        assert(needs::token_below(last, n));
        let part = match last {
            Tok::Word(_) => Parse { rule: 0, parts: Seq::empty() },
            Tok::Child(x) => law_inside_is_attained(rules, n, t, x as int, s),
        };
        let parts = fewer.push(part);
        assert(parts.drop_last() =~= fewer);
        assert forall|k: int| 0 <= k < parts.len() && tokens[k] is Child implies laws::is_parse(
            rules,
            #[trigger] parts[k],
            tokens[k]->Child_0 as int,
        ) by {
            if k < fewer.len() {
                assert(parts[k] == fewer[k]);
                assert(short[k] == tokens[k]);
            }
        }
        parts
    }
}

/// A completion of a state: the root that it starts from, and the steps down.
pub struct Completion {
    pub root: usize,
    pub steps: Seq<Descent>,
}

/// Whether `c` leads from a root down to `x`.
pub open spec fn is_completion(
    rules: Seq<TokenRule>,
    roots: Seq<usize>,
    c: Completion,
    x: int,
) -> bool {
    roots.contains(c.root) && laws::leads_to(rules, c.root as int, c.steps, x)
}

/// Whether a state has a completion.
pub open spec fn has_completion(rules: Seq<TokenRule>, roots: Seq<usize>, x: int) -> bool {
    exists|c: Completion| #[trigger] is_completion(rules, roots, c, x)
}

spec fn is_least_around(
    rules: Seq<TokenRule>,
    roots: Seq<usize>,
    left: bool,
    x: int,
    s: u32,
    c: Completion,
) -> bool {
    &&& is_completion(rules, roots, c, x)
    &&& forall|o: Completion| #[trigger]
        is_completion(rules, roots, o, x) ==> laws::side_leaves(rules, c.steps, left, s)
            <= laws::side_leaves(rules, o.steps, left, s)
}

spec fn least_around(
    rules: Seq<TokenRule>,
    roots: Seq<usize>,
    left: bool,
    x: int,
    s: u32,
) -> Completion {
    choose|c: Completion| is_least_around(rules, roots, left, x, s, c)
}

proof fn lemma_least_around(
    rules: Seq<TokenRule>,
    roots: Seq<usize>,
    left: bool,
    x: int,
    s: u32,
    c: Completion,
)
    requires
        is_completion(rules, roots, c, x),
    ensures
        is_least_around(rules, roots, left, x, s, least_around(rules, roots, left, x, s)),
    decreases laws::side_leaves(rules, c.steps, left, s),
{
    if !is_least_around(rules, roots, left, x, s, c) {
        let o = choose|o: Completion| #[trigger]
            is_completion(rules, roots, o, x) && laws::side_leaves(rules, o.steps, left, s)
                < laws::side_leaves(rules, c.steps, left, s);
        lemma_least_around(rules, roots, left, x, s, o);
    }
}

spec fn fewest_around_at(
    rules: Seq<TokenRule>,
    roots: Seq<usize>,
    left: bool,
    x: int,
) -> Counts {
    |s: u32|
        laws::side_leaves(rules, least_around(rules, roots, left, x, s).steps, left, s)
}

/// The fewest leaves that completions have on one side.
spec fn fewest_around(
    rules: Seq<TokenRule>,
    roots: Seq<usize>,
    left: bool,
    n: nat,
) -> Seq<Need> {
    Seq::new(
        n,
        |x: int|
            if has_completion(rules, roots, x) {
                Some(fewest_around_at(rules, roots, left, x))
            } else {
                None
            },
    )
}

/// A step down whose leaves on one side are those that the inside table demands there.
proof fn lemma_least_step(
    rules: Seq<TokenRule>,
    inside: Seq<Need>,
    left: bool,
    i: int,
    p: int,
    s: u32,
) -> (parts: Seq<Parse>)
    requires
        needs::rules_below(rules, inside.len()),
        needs::is_inside(rules, inside.len(), inside),
        needs::passes_down(rules, inside, i, p),
    ensures
        laws::are_parts(rules, rules[i].tokens, parts),
        needs::need_of(needs::side(rules[i].tokens, p, left), inside) is Some,
        laws::parts_leaves(
            rules,
            needs::side(rules[i].tokens, p, left),
            laws::side_parts(parts, p, left),
            s,
        ) == (needs::need_of(needs::side(rules[i].tokens, p, left), inside)->0)(s),
{
    let tokens = rules[i].tokens;
    let n = inside.len();
    assert(needs::rule_below(rules[i], n));
    lemma_parts_present(tokens, inside);
    let some = lemma_table_parts(rules, n, inside, tokens, s);
    let beside = needs::side(tokens, p, left);
    assert forall|k: int| 0 <= k < beside.len() implies needs::token_below(
        #[trigger] beside[k],
        n,
    ) && (beside[k] matches Tok::Child(x) ==> inside[x as int] is Some) by {
        let j = if left {
            k
        } else {
            k + p + 1
        };
        assert(beside[k] == tokens[j]);
    }
    lemma_present(beside, inside);
    let own = lemma_table_parts(rules, n, inside, beside, s);
    let parts = if left {
        own + some.skip(p)
    } else {
        some.take(p + 1) + own
    };
    assert(laws::side_parts(parts, p, left) =~= own);
    assert forall|k: int| 0 <= k < parts.len() && tokens[k] is Child implies laws::is_parse(
        rules,
        #[trigger] parts[k],
        tokens[k]->Child_0 as int,
    ) by {
        if left && k < p {
            assert(parts[k] == own[k]);
            assert(beside[k] == tokens[k]);
        } else if !left && k > p {
            assert(parts[k] == own[k - p - 1]);
            assert(beside[k - p - 1] == tokens[k]);
        } else {
            assert(parts[k] == some[k]);
        }
    }
    parts
}

/// Where a yield has its leaves, all its children are in the table.
proof fn lemma_parts_present(tokens: Seq<Tok>, t: Seq<Need>)
    requires
        needs::need_of(tokens, t) is Some,
    ensures
        forall|k: int|
            0 <= k < tokens.len() ==> ((#[trigger] tokens[k]) matches Tok::Child(x)
                ==> t[x as int] is Some),
    decreases tokens.len(),
{
    if tokens.len() > 0 {
        let short = tokens.drop_last();
        lemma_parts_present(short, t);
        assert forall|k: int| 0 <= k < tokens.len() implies ((
        #[trigger] tokens[k]) matches Tok::Child(x) ==> t[x as int] is Some) by {
            if k < short.len() {
                assert(short[k] == tokens[k]);
            }
        }
    }
}

/// Where all children are in the table, a yield has its leaves.
proof fn lemma_present(tokens: Seq<Tok>, t: Seq<Need>)
    requires
        forall|k: int|
            0 <= k < tokens.len() ==> ((#[trigger] tokens[k]) matches Tok::Child(x)
                ==> t[x as int] is Some),
    ensures
        needs::need_of(tokens, t) is Some,
    decreases tokens.len(),
{
    if tokens.len() > 0 {
        let short = tokens.drop_last();
        assert forall|k: int| 0 <= k < short.len() implies ((
        #[trigger] short[k]) matches Tok::Child(x) ==> t[x as int] is Some) by {
            assert(short[k] == tokens[k]);
        }
        lemma_present(short, t);
        assert(tokens[tokens.len() - 1] == tokens.last());
    }
}

proof fn lemma_fewest_around_closed(
    rules: Seq<TokenRule>,
    roots: Seq<usize>,
    inside: Seq<Need>,
    left: bool,
)
    requires
        needs::rules_below(rules, inside.len()),
        needs::is_inside(rules, inside.len(), inside),
        forall|k: int| 0 <= k < roots.len() ==> (#[trigger] roots[k]) < inside.len(),
    ensures
        needs::outside_closed(
            rules,
            roots,
            inside,
            left,
            fewest_around(rules, roots, left, inside.len()),
        ),
{
    let n = inside.len();
    let t = fewest_around(rules, roots, left, n);
    assert forall|k: int| 0 <= k < roots.len() implies needs::le(
        t[(#[trigger] roots[k]) as int],
        Some(bag::none_at_all()),
    ) by {
        let x = roots[k] as int;
        let none = Completion { root: roots[k], steps: Seq::empty() };
        assert(roots.contains(roots[k]));
        assert(is_completion(rules, roots, none, x));
        assert forall|s: u32| #[trigger]
            fewest_around_at(rules, roots, left, x)(s) <= bag::none_at_all()(s) by {
            lemma_least_around(rules, roots, left, x, s, none);
        }
    }
    assert forall|i: int, p: int| #[trigger] needs::passes_down(rules, inside, i, p) implies needs::le(
        t[needs::child_at(rules, i, p)],
        needs::side_need(rules[i], p, left, inside, t),
    ) by {
        let rule = rules[i];
        let x = needs::child_at(rules, i, p);
        let made = needs::side_need(rule, p, left, inside, t);
        assert(needs::rule_below(rule, n));
        assert(needs::token_below(rule.tokens[p], n));
        if made is Some {
            let top = rule.result;
            assert(has_completion(rules, roots, top));
            let any = choose|c: Completion| #[trigger] is_completion(rules, roots, c, top);
            assert forall|s: u32| #[trigger]
                fewest_around_at(rules, roots, left, x)(s) <= (made->0)(s) && has_completion(
                    rules,
                    roots,
                    x,
                ) by {
                lemma_least_around(rules, roots, left, top, s, any);
                let above = least_around(rules, roots, left, top, s);
                let parts = lemma_least_step(rules, inside, left, i, p, s);
                let step = Descent { rule: i, position: p, parts };
                let c = Completion { root: above.root, steps: above.steps.push(step) };
                assert(c.steps.drop_last() =~= above.steps);
                assert(c.steps.last() == step);
                assert(is_completion(rules, roots, c, x));
                lemma_least_around(rules, roots, left, x, s, c);
            }
            assert(fewest_around_at(rules, roots, left, x)(0) <= (made->0)(0));
        }
    }
}

/// What the table demands on one side of a state is the least that completions have there:
/// for every leaf some completion has it just as often.
pub proof fn law_outside_is_attained(
    rules: Seq<TokenRule>,
    roots: Seq<usize>,
    inside: Seq<Need>,
    left: bool,
    t: Seq<Need>,
    x: int,
    s: u32,
) -> (c: Completion)
    requires
        needs::rules_below(rules, inside.len()),
        needs::is_inside(rules, inside.len(), inside),
        needs::is_outside(rules, roots, inside, left, t),
        forall|k: int| 0 <= k < roots.len() ==> (#[trigger] roots[k]) < inside.len(),
        0 <= x < t.len(),
        t[x] is Some,
    ensures
        is_completion(rules, roots, c, x),
        laws::side_leaves(rules, c.steps, left, s) == (t[x]->0)(s),
{
    let f = fewest_around(rules, roots, left, inside.len());
    lemma_fewest_around_closed(rules, roots, inside, left);
    assert(needs::table_le(f, t));
    assert(needs::le(f[x], t[x]));
    assert(has_completion(rules, roots, x));
    let any = choose|c: Completion| #[trigger] is_completion(rules, roots, c, x);
    lemma_least_around(rules, roots, left, x, s, any);
    let c = least_around(rules, roots, left, x, s);
    assert((f[x]->0)(s) <= (t[x]->0)(s));
    laws::law_outside_is_obligatory(rules, roots, inside, left, t, c.root, c.steps, x, s);
    c
}

} // verus!
