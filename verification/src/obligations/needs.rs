//! What is obligatory, as the greatest tables that the rules of a grammar allow.
use crate::obligations::bag;
use crate::obligations::bag::{Bag, Counts};
use vstd::prelude::*;

verus! {

/// One token of a rule's flattened yield.
#[derive(Clone, Copy, PartialEq, Eq, Structural, Debug)]
pub enum Tok {
    /// A leaf symbol.
    Word(u32),
    /// The yield of a child with this state.
    Child(usize),
}

/// A grammar rule reduced to its result and its yield, from left to right.
#[derive(Debug)]
pub struct FlatRule {
    pub result: usize,
    pub tokens: Vec<Tok>,
}

/// The model of a [`FlatRule`].
pub struct TokenRule {
    pub result: int,
    pub tokens: Seq<Tok>,
}

impl View for FlatRule {
    type V = TokenRule;

    open spec fn view(&self) -> TokenRule {
        TokenRule { result: self.result as int, tokens: self.tokens@ }
    }
}

/// The models of rules.
pub open spec fn token_rules(rules: Seq<FlatRule>) -> Seq<TokenRule> {
    Seq::new(rules.len(), |i: int| rules[i]@)
}

/// Whether a token mentions one of the first `n` states, if any.
pub open spec fn token_below(token: Tok, n: nat) -> bool {
    token matches Tok::Child(x) ==> x < n
}

/// Whether a rule mentions the first `n` states only.
pub open spec fn rule_below(rule: TokenRule, n: nat) -> bool {
    &&& 0 <= rule.result < n
    &&& forall|p: int| 0 <= p < rule.tokens.len() ==> token_below(#[trigger] rule.tokens[p], n)
}

/// Whether the rules mention the first `n` states only.
pub open spec fn rules_below(rules: Seq<TokenRule>, n: nat) -> bool {
    forall|i: int| 0 <= i < rules.len() ==> rule_below(#[trigger] rules[i], n)
}

/// The leaves that are obligatory; `None` where nothing limits them, as for a state
/// that no derivation ends in.
pub type Need = Option<Counts>;

/// Whether `a` demands no more than `b`.
pub open spec fn le(a: Need, b: Need) -> bool {
    match b {
        None => true,
        Some(y) => match a {
            None => false,
            Some(x) => bag::at_most(x, y),
        },
    }
}

/// Whether one table demands no more than another, state by state.
pub open spec fn table_le(a: Seq<Need>, b: Seq<Need>) -> bool {
    a.len() == b.len() && forall|x: int| 0 <= x < a.len() ==> le(#[trigger] a[x], b[x])
}

/// What both demand.
pub open spec fn narrowed(a: Need, c: Counts) -> Counts {
    match a {
        None => c,
        Some(x) => bag::meet(x, c),
    }
}

/// The leaves of a yield, where `table` gives those of the children.
pub open spec fn need_of(tokens: Seq<Tok>, table: Seq<Need>) -> Need
    decreases tokens.len(),
{
    if tokens.len() == 0 {
        Some(bag::none_at_all())
    } else {
        match need_of(tokens.drop_last(), table) {
            None => None,
            Some(c) => match tokens.last() {
                Tok::Word(s) => Some(bag::one_more(c, s)),
                Tok::Child(x) => match table[x as int] {
                    None => None,
                    Some(m) => Some(bag::plus(c, m)),
                },
            },
        }
    }
}

/// More in the table is more in the yield.
pub proof fn lemma_need_monotone(tokens: Seq<Tok>, a: Seq<Need>, b: Seq<Need>)
    requires
        table_le(a, b),
        forall|p: int| 0 <= p < tokens.len() ==> token_below(#[trigger] tokens[p], a.len()),
    ensures
        le(need_of(tokens, a), need_of(tokens, b)),
    decreases tokens.len(),
{
    if tokens.len() > 0 {
        let shorter = tokens.drop_last();
        assert forall|p: int| 0 <= p < shorter.len() implies token_below(
            #[trigger] shorter[p],
            a.len(),
        ) by {
            assert(shorter[p] == tokens[p]);
        }
        lemma_need_monotone(shorter, a, b);
        let last = tokens[tokens.len() - 1];
        assert(token_below(last, a.len()));
        if let Tok::Child(x) = last {
            assert(le(a[x as int], b[x as int]));
        }
        if need_of(tokens, b) is Some {
            let y = need_of(tokens, b)->0;
            let x = need_of(tokens, a)->0;
            let yy = need_of(shorter, b)->0;
            let xx = need_of(shorter, a)->0;
            assert(bag::at_most(xx, yy));
            assert forall|s: u32| #[trigger] x(s) <= y(s) by {
                assert(xx(s) <= yy(s));
                if let Tok::Child(c) = last {
                    let m = a[c as int]->0;
                    assert(m(s) <= (b[c as int]->0)(s));
                }
            }
        }
    }
}

/// Whether `t` keeps below what every rule makes of it: every derivation that ends in a
/// state has what `t` demands there.
pub open spec fn inside_closed(rules: Seq<TokenRule>, t: Seq<Need>) -> bool {
    forall|i: int|
        0 <= i < rules.len() ==> le(
            t[(#[trigger] rules[i]).result],
            need_of(rules[i].tokens, t),
        )
}

/// Whether `t` demands the most that the rules allow inside each of `n` states.
pub open spec fn is_inside(rules: Seq<TokenRule>, n: nat, t: Seq<Need>) -> bool {
    &&& t.len() == n
    &&& inside_closed(rules, t)
    &&& forall|other: Seq<Need>|
        other.len() == n && #[trigger] inside_closed(rules, other) ==> table_le(other, t)
}

/// Nothing limited yet.
pub open spec fn unlimited(n: nat) -> Seq<Need> {
    Seq::new(n, |x: int| None::<Counts>)
}

/// The table after taking the given rules into account, one after the other.
pub open spec fn inside_stage(rules: Seq<TokenRule>, n: nat, steps: Seq<int>) -> Seq<Need>
    decreases steps.len(),
{
    if steps.len() == 0 {
        unlimited(n)
    } else {
        let t = inside_stage(rules, n, steps.drop_last());
        let rule = rules[steps.last()];
        match need_of(rule.tokens, t) {
            None => t,
            Some(c) => t.update(rule.result, Some(narrowed(t[rule.result], c))),
        }
    }
}

/// Whether steps are numbers of rules.
pub open spec fn are_rules(rules: Seq<TokenRule>, steps: Seq<int>) -> bool {
    forall|k: int| 0 <= k < steps.len() ==> 0 <= #[trigger] steps[k] < rules.len()
}

/// Whether rule `i` makes a count too large for a bag after the given rules.
pub open spec fn inside_overflow(rules: Seq<TokenRule>, n: nat, steps: Seq<int>, i: int) -> bool {
    &&& are_rules(rules, steps)
    &&& 0 <= i < rules.len()
    &&& need_of(rules[i].tokens, inside_stage(rules, n, steps)) matches Some(c)
    &&& !bag::fits(c)
}

/// Whether counts can get too large for a bag while the table is narrowed.
pub open spec fn inside_too_large(rules: Seq<TokenRule>, n: nat) -> bool {
    exists|steps: Seq<int>, i: int| #[trigger] inside_overflow(rules, n, steps, i)
}

/// Whether every child of a rule ends some derivation.
pub open spec fn is_usable(rule: TokenRule, inside: Seq<Need>) -> bool {
    need_of(rule.tokens, inside) is Some
}

/// The part of a yield on one side of position `p`.
pub open spec fn side(tokens: Seq<Tok>, p: int, left: bool) -> Seq<Tok> {
    if left {
        tokens.take(p)
    } else {
        tokens.skip(p + 1)
    }
}

/// What stands on one side of the child at position `p`, from what stands on that side
/// of the whole.
pub open spec fn side_need(
    rule: TokenRule,
    p: int,
    left: bool,
    inside: Seq<Need>,
    t: Seq<Need>,
) -> Need {
    match t[rule.result] {
        None => None,
        Some(base) => match need_of(side(rule.tokens, p, left), inside) {
            None => None,
            Some(c) => Some(bag::plus(base, c)),
        },
    }
}

/// Whether rule `i` passes demands down to the child at position `p`.
pub open spec fn passes_down(rules: Seq<TokenRule>, inside: Seq<Need>, i: int, p: int) -> bool {
    &&& 0 <= i < rules.len()
    &&& 0 <= p < rules[i].tokens.len()
    &&& rules[i].tokens[p] is Child
    &&& is_usable(rules[i], inside)
}

/// The child at position `p` of rule `i`.
pub open spec fn child_at(rules: Seq<TokenRule>, i: int, p: int) -> int {
    rules[i].tokens[p]->Child_0 as int
}

/// Whether `t` demands nothing beside a root, and keeps below what every usable rule
/// passes down.
pub open spec fn outside_closed(
    rules: Seq<TokenRule>,
    roots: Seq<usize>,
    inside: Seq<Need>,
    left: bool,
    t: Seq<Need>,
) -> bool {
    &&& forall|k: int|
        0 <= k < roots.len() ==> le(t[(#[trigger] roots[k]) as int], Some(bag::none_at_all()))
    &&& forall|i: int, p: int| #[trigger]
        passes_down(rules, inside, i, p) ==> le(
            t[child_at(rules, i, p)],
            side_need(rules[i], p, left, inside, t),
        )
}

/// Whether `t` demands the most that the rules allow on one side of each state.
pub open spec fn is_outside(
    rules: Seq<TokenRule>,
    roots: Seq<usize>,
    inside: Seq<Need>,
    left: bool,
    t: Seq<Need>,
) -> bool {
    &&& t.len() == inside.len()
    &&& outside_closed(rules, roots, inside, left, t)
    &&& forall|other: Seq<Need>|
        other.len() == inside.len() && #[trigger] outside_closed(rules, roots, inside, left, other)
            ==> table_le(other, t)
}

/// The table with nothing demanded beside the first `k` roots.
pub open spec fn seeded(roots: Seq<usize>, n: nat, k: nat) -> Seq<Need>
    decreases k,
{
    if k == 0 {
        unlimited(n)
    } else {
        seeded(roots, n, (k - 1) as nat).update(
            roots[k - 1] as int,
            Some(bag::none_at_all()),
        )
    }
}

/// The table after taking the given rules and positions into account.
pub open spec fn outside_stage(
    rules: Seq<TokenRule>,
    roots: Seq<usize>,
    inside: Seq<Need>,
    left: bool,
    steps: Seq<(int, int)>,
) -> Seq<Need>
    decreases steps.len(),
{
    if steps.len() == 0 {
        seeded(roots, inside.len(), roots.len())
    } else {
        let t = outside_stage(rules, roots, inside, left, steps.drop_last());
        let (i, p) = steps.last();
        match side_need(rules[i], p, left, inside, t) {
            None => t,
            Some(c) => {
                let x = child_at(rules, i, p);
                t.update(x, Some(narrowed(t[x], c)))
            },
        }
    }
}

/// Whether steps are rules and positions that pass demands down.
pub open spec fn all_pass_down(
    rules: Seq<TokenRule>,
    inside: Seq<Need>,
    steps: Seq<(int, int)>,
) -> bool {
    forall|k: int|
        0 <= k < steps.len() ==> passes_down(
            rules,
            inside,
            (#[trigger] steps[k]).0,
            steps[k].1,
        )
}

/// Whether passing demands down makes a count too large for a bag.
pub open spec fn outside_overflow(
    rules: Seq<TokenRule>,
    roots: Seq<usize>,
    inside: Seq<Need>,
    left: bool,
    steps: Seq<(int, int)>,
    i: int,
    p: int,
) -> bool {
    &&& all_pass_down(rules, inside, steps)
    &&& passes_down(rules, inside, i, p)
    &&& side_need(
        rules[i],
        p,
        left,
        inside,
        outside_stage(rules, roots, inside, left, steps),
    ) matches Some(c)
    &&& !bag::fits(c)
}

/// Whether counts can get too large for a bag while demands are passed down.
pub open spec fn outside_too_large(
    rules: Seq<TokenRule>,
    roots: Seq<usize>,
    inside: Seq<Need>,
    left: bool,
) -> bool {
    exists|steps: Seq<(int, int)>, i: int, p: int| #[trigger]
        outside_overflow(rules, roots, inside, left, steps, i, p)
}

/// The demand that an entry of a table stands for.
pub open spec fn need_in(entry: Option<Bag>) -> Need {
    match entry {
        None => None,
        Some(b) => Some(b@),
    }
}

/// The demands that a table stands for.
pub open spec fn needs(table: Seq<Option<Bag>>) -> Seq<Need> {
    Seq::new(table.len(), |x: int| need_in(table[x]))
}

} // verus!
