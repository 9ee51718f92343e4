//! Computing the tables of obligatory leaves.
use crate::obligations::bag;
use crate::obligations::bag::{Bag, Counts};
use crate::obligations::needs;
use crate::obligations::needs::{FlatRule, Need, Tok, TokenRule};
use vstd::prelude::*;

verus! {

/// The leaves of a part of a yield.
pub enum Sum {
    /// Some child has no derivation.
    Missing,
    /// A count is too large for a bag.
    TooLarge,
    Found(Bag),
}

/// Whether `sum` is the outcome of adding up `need`.
pub open spec fn sums_to(sum: Sum, need: Need) -> bool {
    match sum {
        Sum::Missing => need is None,
        Sum::TooLarge => need matches Some(c) && !bag::fits(c),
        Sum::Found(b) => need == Some(b@),
    }
}

/// A longer part has no less.
proof fn lemma_prefix(tokens: Seq<Tok>, k: int, table: Seq<Need>)
    requires
        0 <= k <= tokens.len(),
        need_of_is_some(tokens, table),
    ensures
        need_of_is_some(tokens.take(k), table),
        bag::at_most(needs::need_of(tokens.take(k), table)->0, needs::need_of(tokens, table)->0),
    decreases tokens.len(),
{
    if k == tokens.len() {
        assert(tokens.take(k) =~= tokens);
    } else {
        lemma_prefix(tokens.drop_last(), k, table);
        assert(tokens.drop_last().take(k) =~= tokens.take(k));
        let a = needs::need_of(tokens.take(k), table)->0;
        let b = needs::need_of(tokens.drop_last(), table)->0;
        let c = needs::need_of(tokens, table)->0;
        assert forall|s: u32| #[trigger] a(s) <= c(s) by {
            assert(a(s) <= b(s));
        }
    }
}

/// Whether every child of a yield has a derivation.
pub open spec fn need_of_is_some(tokens: Seq<Tok>, table: Seq<Need>) -> bool {
    needs::need_of(tokens, table) is Some
}

/// Whether every child of the tokens has an entry.
fn all_present(tokens: &Vec<Tok>, from: usize, to: usize, table: &Vec<Option<Bag>>) -> (r: bool)
    requires
        from <= to <= tokens@.len(),
        forall|p: int|
            0 <= p < tokens@.len() ==> needs::token_below(#[trigger] tokens@[p], table@.len()),
    ensures
        r == need_of_is_some(tokens@.subrange(from as int, to as int), needs::needs(table@)),
{
    let ghost t = needs::needs(table@);
    let mut p: usize = from;
    assert(tokens@.subrange(from as int, from as int).len() == 0);
    while p < to
        invariant
            from <= p <= to <= tokens@.len(),
            t == needs::needs(table@),
            forall|q: int|
                0 <= q < tokens@.len() ==> needs::token_below(#[trigger] tokens@[q], table@.len()),
            need_of_is_some(tokens@.subrange(from as int, p as int), t),
        decreases to - p,
    {
        proof {
            let next = tokens@.subrange(from as int, p + 1);
            assert(next.drop_last() =~= tokens@.subrange(from as int, p as int));
            assert(next.last() == tokens@[p as int]);
            assert(needs::token_below(tokens@[p as int], table@.len()));
        }
        if let Tok::Child(x) = tokens[p] {
            assert(t[x as int] == needs::need_in(table@[x as int]));
            if table[x].is_none() {
                proof {
                    let all = tokens@.subrange(from as int, to as int);
                    if need_of_is_some(all, t) {
                        lemma_prefix(all, p + 1 - from, t);
                        assert(all.take(p + 1 - from) =~= tokens@.subrange(from as int, p + 1));
                    }
                }
                return false;
            }
        }
        p += 1;
    }
    true
}

/// Adds up the leaves of the tokens from `from` to `to`.
pub fn sum_of(tokens: &Vec<Tok>, from: usize, to: usize, table: &Vec<Option<Bag>>) -> (sum: Sum)
    requires
        from <= to <= tokens@.len(),
        forall|p: int|
            0 <= p < tokens@.len() ==> needs::token_below(#[trigger] tokens@[p], table@.len()),
    ensures
        sums_to(
            sum,
            needs::need_of(tokens@.subrange(from as int, to as int), needs::needs(table@)),
        ),
{
    let ghost t = needs::needs(table@);
    let ghost all = tokens@.subrange(from as int, to as int);
    if !all_present(tokens, from, to, table) {
        return Sum::Missing;
    }
    let mut sum = Bag::new();
    let mut p: usize = from;
    assert(tokens@.subrange(from as int, from as int).len() == 0);
    while p < to
        invariant
            from <= p <= to <= tokens@.len(),
            t == needs::needs(table@),
            all == tokens@.subrange(from as int, to as int),
            need_of_is_some(all, t),
            forall|q: int|
                0 <= q < tokens@.len() ==> needs::token_below(#[trigger] tokens@[q], table@.len()),
            needs::need_of(tokens@.subrange(from as int, p as int), t) == Some(sum@),
        decreases to - p,
    {
        let ghost next = tokens@.subrange(from as int, p + 1);
        let ghost before = sum@;
        proof {
            assert(next.drop_last() =~= tokens@.subrange(from as int, p as int));
            assert(next.last() == tokens@[p as int]);
            assert(needs::token_below(tokens@[p as int], table@.len()));
            lemma_prefix(all, p + 1 - from, t);
            assert(all.take(p + 1 - from) =~= next);
        }
        let done = match tokens[p] {
            Tok::Word(s) => {
                let done = sum.raise(s, 1);
                proof {
                    if done {
                        assert(sum@ =~= bag::one_more(before, s));
                    } else {
                        assert(!(bag::one_more(before, s)(s) <= u32::MAX));
                    }
                }
                done
            },
            Tok::Child(x) => {
                assert(t[x as int] == needs::need_in(table@[x as int]));
                match &table[x] {
                    Some(m) => {
                        let done = sum.absorb(m);
                        proof {
                            if !done {
                                assert(!bag::fits(bag::plus(before, m@)));
                            }
                        }
                        done
                    },
                    None => {
                        return Sum::Missing;
                    },
                }
            },
        };
        if !done {
            proof {
                let part = needs::need_of(next, t)->0;
                let full = needs::need_of(all, t)->0;
                assert(!bag::fits(part));
                let s = choose|s: u32| !(#[trigger] part(s) <= u32::MAX);
                assert(part(s) <= full(s));
                assert(!(full(s) <= u32::MAX));
            }
            return Sum::TooLarge;
        }
        p += 1;
    }
    Sum::Found(sum)
}

/// How many states are not limited yet.
pub open spec fn open_states(table: Seq<Option<Bag>>) -> nat
    decreases table.len(),
{
    if table.len() == 0 {
        0
    } else {
        open_states(table.drop_last()) + if table.last() is None {
            1nat
        } else {
            0nat
        }
    }
}

/// The counts of one entry together.
pub open spec fn entry_weight(entry: Option<Bag>) -> nat {
    match entry {
        None => 0,
        Some(b) => bag::total(b.listing()),
    }
}

/// All counts together.
pub open spec fn weight(table: Seq<Option<Bag>>) -> nat
    decreases table.len(),
{
    if table.len() == 0 {
        0
    } else {
        weight(table.drop_last()) + entry_weight(table.last())
    }
}

proof fn lemma_measures(table: Seq<Option<Bag>>, x: int, entry: Option<Bag>)
    requires
        0 <= x < table.len(),
    ensures
        open_states(table.update(x, entry)) + (if table[x] is None {
            1nat
        } else {
            0nat
        }) == open_states(table) + (if entry is None {
            1nat
        } else {
            0nat
        }),
        weight(table.update(x, entry)) + entry_weight(table[x]) == weight(table) + entry_weight(
            entry,
        ),
    decreases table.len(),
{
    if x == table.len() - 1 {
        assert(table.update(x, entry).drop_last() =~= table.drop_last());
    } else {
        assert(table.update(x, entry).drop_last() =~= table.drop_last().update(x, entry));
        lemma_measures(table.drop_last(), x, entry);
    }
}

/// Whether the second table is strictly further on than the first.
pub open spec fn further(a: Seq<Option<Bag>>, b: Seq<Option<Bag>>) -> bool {
    open_states(b) < open_states(a) || (open_states(b) == open_states(a) && weight(b) < weight(a))
}

/// Whether neither measure changed.
pub open spec fn level(a: Seq<Option<Bag>>, b: Seq<Option<Bag>>) -> bool {
    open_states(b) == open_states(a) && weight(b) == weight(a)
}

/// Narrows the entry of one state, and says whether that changed it.
pub fn meet_update(table: &mut Vec<Option<Bag>>, x: usize, cand: Bag) -> (changed: bool)
    requires
        x < old(table)@.len(),
    ensures
        final(table)@.len() == old(table)@.len(),
        needs::needs(final(table)@) == needs::needs(old(table)@).update(
            x as int,
            Some(needs::narrowed(needs::needs(old(table)@)[x as int], cand@)),
        ),
        changed == !needs::le(needs::needs(old(table)@)[x as int], Some(cand@)),
        changed ==> further(old(table)@, final(table)@),
        !changed ==> level(old(table)@, final(table)@) && needs::needs(final(table)@)
            == needs::needs(old(table)@),
{
    let ghost before = table@;
    let ghost t = needs::needs(before);
    assert(t[x as int] == needs::need_in(before[x as int]));
    let (entry, changed) = match &table[x] {
        None => (cand, true),
        Some(current) => {
            let (low, less) = current.met(&cand);
            (low, less)
        },
    };
    proof {
        lemma_measures(before, x as int, Some(entry));
    }
    table.set(x, Some(entry));
    proof {
        assert(table@ =~= before.update(x as int, Some(entry)));
        assert(needs::needs(table@) =~= t.update(
            x as int,
            Some(needs::narrowed(t[x as int], cand@)),
        ));
        if !changed {
            assert(needs::needs(table@) =~= t);
        }
    }
    changed
}

/// Narrowing by what a rule makes of a table keeps it above every closed table.
proof fn lemma_inside_step(
    rules: Seq<TokenRule>,
    n: nat,
    t: Seq<Need>,
    i: int,
    c: Counts,
    other: Seq<Need>,
)
    requires
        needs::rules_below(rules, n),
        t.len() == n,
        other.len() == n,
        0 <= i < rules.len(),
        needs::need_of(rules[i].tokens, t) == Some(c),
        needs::inside_closed(rules, other),
        needs::table_le(other, t),
    ensures
        needs::table_le(
            other,
            t.update(rules[i].result, Some(needs::narrowed(t[rules[i].result], c))),
        ),
{
    let x = rules[i].result;
    assert(needs::rule_below(rules[i], n));
    needs::lemma_need_monotone(rules[i].tokens, other, t);
    assert(needs::le(other[x], needs::need_of(rules[i].tokens, other)));
    let made = needs::need_of(rules[i].tokens, other);
    assert(needs::le(made, Some(c)));
    assert(needs::le(other[x], t[x]));
    let a = other[x]->0;
    let b = needs::narrowed(t[x], c);
    assert forall|s: u32| #[trigger] a(s) <= b(s) by {
        assert((made->0)(s) <= c(s));
        assert(a(s) <= (made->0)(s));
        if t[x] is Some {
            assert(a(s) <= (t[x]->0)(s));
        }
    }
    assert(needs::le(other[x], Some(b)));
}

/// The leaves that every derivation of a state must contain, by state; `None` where
/// counts get too large.
pub fn inside_table(n: usize, rules: &Vec<FlatRule>) -> (r: Option<Vec<Option<Bag>>>)
    requires
        needs::rules_below(needs::token_rules(rules@), n as nat),
    ensures
        match r {
            Some(table) => needs::is_inside(
                needs::token_rules(rules@),
                n as nat,
                needs::needs(table@),
            ),
            None => needs::inside_too_large(needs::token_rules(rules@), n as nat),
        },
{
    let ghost all = needs::token_rules(rules@);
    let mut table: Vec<Option<Bag>> = Vec::new();
    let mut x: usize = 0;
    while x < n
        invariant
            x <= n,
            table@.len() == x,
            forall|y: int| 0 <= y < x ==> #[trigger] table@[y] is None,
        decreases n - x,
    {
        table.push(None);
        x += 1;
    }
    let ghost mut steps: Seq<int> = Seq::empty();
    proof {
        assert(needs::needs(table@) =~= needs::unlimited(n as nat));
    }
    let mut changed = true;
    while changed
        invariant
            all == needs::token_rules(rules@),
            needs::rules_below(all, n as nat),
            table@.len() == n,
            needs::needs(table@) == needs::inside_stage(all, n as nat, steps),
                needs::are_rules(all, steps),
            forall|other: Seq<Need>|
                other.len() == n && #[trigger] needs::inside_closed(all, other)
                    ==> needs::table_le(other, needs::needs(table@)),
            !changed ==> needs::inside_closed(all, needs::needs(table@)),
        decreases
            open_states(table@),
            weight(table@),
            if changed {
                1int
            } else {
                0int
            },
    {
        changed = false;
        let ghost start = table@;
        let mut i: usize = 0;
        while i < rules.len()
            invariant
                i <= rules@.len(),
                all == needs::token_rules(rules@),
                needs::rules_below(all, n as nat),
                table@.len() == n,
                needs::needs(table@) == needs::inside_stage(all, n as nat, steps),
                needs::are_rules(all, steps),
                forall|other: Seq<Need>|
                    other.len() == n && #[trigger] needs::inside_closed(all, other)
                        ==> needs::table_le(other, needs::needs(table@)),
                changed ==> further(start, table@),
                !changed ==> level(start, table@),
                !changed ==> forall|j: int|
                    0 <= j < i ==> needs::le(
                        needs::needs(table@)[(#[trigger] all[j]).result],
                        needs::need_of(all[j].tokens, needs::needs(table@)),
                    ),
            decreases rules@.len() - i,
        {
            let rule = &rules[i];
            let ghost t = needs::needs(table@);
            let ghost now = table@;
            proof {
                assert(all[i as int] == rule@);
                assert(needs::rule_below(all[i as int], n as nat));
                assert(rule.tokens@.subrange(0, rule.tokens@.len() as int) =~= rule.tokens@);
                assert(needs::inside_stage(all, n as nat, steps.push(i as int)) == match needs::need_of(
                    all[i as int].tokens,
                    t,
                ) {
                    None => t,
                    Some(c) => t.update(
                        all[i as int].result,
                        Some(needs::narrowed(t[all[i as int].result], c)),
                    ),
                }) by {
                    assert(steps.push(i as int).drop_last() =~= steps);
                }
            }
            let length: usize = rule.tokens.len();
            match sum_of(&rule.tokens, 0, length, &table) {
                Sum::Missing => {},
                Sum::TooLarge => {
                    assert(needs::inside_overflow(all, n as nat, steps, i as int));
                    return None;
                },
                Sum::Found(sum) => {
                    proof {
                        assert forall|other: Seq<Need>|
                            other.len() == n && #[trigger] needs::inside_closed(
                                all,
                                other,
                            ) implies needs::table_le(
                            other,
                            t.update(
                                all[i as int].result,
                                Some(needs::narrowed(t[all[i as int].result], sum@)),
                            ),
                        ) by {
                            lemma_inside_step(all, n as nat, t, i as int, sum@, other);
                        }
                    }
                    if meet_update(&mut table, rule.result, sum) {
                        changed = true;
                    }
                    proof {
                        steps = steps.push(i as int);
                    }
                },
            }
            i += 1;
        }
    }
    Some(table)
}

/// Narrowing by what a rule passes down keeps a table above every closed one.
proof fn lemma_outside_step(
    rules: Seq<TokenRule>,
    roots: Seq<usize>,
    inside: Seq<Need>,
    left: bool,
    t: Seq<Need>,
    i: int,
    p: int,
    c: Counts,
    other: Seq<Need>,
)
    requires
        needs::rules_below(rules, inside.len()),
        t.len() == inside.len(),
        other.len() == inside.len(),
        needs::passes_down(rules, inside, i, p),
        needs::side_need(rules[i], p, left, inside, t) == Some(c),
        needs::outside_closed(rules, roots, inside, left, other),
        needs::table_le(other, t),
    ensures
        needs::table_le(
            other,
            t.update(
                needs::child_at(rules, i, p),
                Some(needs::narrowed(t[needs::child_at(rules, i, p)], c)),
            ),
        ),
{
    let x = needs::child_at(rules, i, p);
    assert(needs::rule_below(rules[i], inside.len()));
    assert(needs::token_below(rules[i].tokens[p], inside.len()));
    let r = rules[i].result;
    assert(needs::le(other[r], t[r]));
    let made = needs::side_need(rules[i], p, left, inside, other);
    assert(needs::le(other[x], made));
    assert(needs::le(other[x], t[x]));
    let a = other[x]->0;
    let b = needs::narrowed(t[x], c);
    let part = needs::need_of(needs::side(rules[i].tokens, p, left), inside)->0;
    assert(c == bag::plus(t[r]->0, part));
    assert(made == Some(bag::plus(other[r]->0, part)));
    assert forall|s: u32| #[trigger] a(s) <= b(s) by {
        assert((other[r]->0)(s) <= (t[r]->0)(s));
        assert(a(s) <= (made->0)(s));
        if t[x] is Some {
            assert(a(s) <= (t[x]->0)(s));
        }
    }
    assert(needs::le(other[x], Some(b)));
}

/// The table that limits the roots alone lies above every closed table.
proof fn lemma_seeded(
    rules: Seq<TokenRule>,
    roots: Seq<usize>,
    inside: Seq<Need>,
    left: bool,
    k: nat,
    other: Seq<Need>,
)
    requires
        k <= roots.len(),
        forall|j: int| 0 <= j < roots.len() ==> (#[trigger] roots[j]) < inside.len(),
        other.len() == inside.len(),
        needs::outside_closed(rules, roots, inside, left, other),
    ensures
        needs::table_le(other, needs::seeded(roots, inside.len(), k)),
    decreases k,
{
    if k > 0 {
        lemma_seeded(rules, roots, inside, left, (k - 1) as nat, other);
        let x = roots[k - 1] as int;
        assert(needs::le(other[x], Some(bag::none_at_all())));
    }
}

/// A root stays limited to nothing.
pub open spec fn roots_limited(roots: Seq<usize>, t: Seq<Need>) -> bool {
    forall|k: int|
        0 <= k < roots.len() ==> needs::le(
            t[(#[trigger] roots[k]) as int],
            Some(bag::none_at_all()),
        )
}

proof fn lemma_seeded_roots(roots: Seq<usize>, n: nat, k: nat)
    requires
        k <= roots.len(),
        forall|j: int| 0 <= j < roots.len() ==> (#[trigger] roots[j]) < n,
    ensures
        needs::seeded(roots, n, k).len() == n,
        forall|j: int|
            0 <= j < k ==> needs::le(
                needs::seeded(roots, n, k)[(#[trigger] roots[j]) as int],
                Some(bag::none_at_all()),
            ),
    decreases k,
{
    if k > 0 {
        lemma_seeded_roots(roots, n, (k - 1) as nat);
        assert forall|j: int| 0 <= j < k implies needs::le(
            needs::seeded(roots, n, k)[(#[trigger] roots[j]) as int],
            Some(bag::none_at_all()),
        ) by {
            assert(bag::at_most(bag::none_at_all(), bag::none_at_all()));
        }
    }
}

/// Narrowing an entry keeps the roots limited.
proof fn lemma_roots_stay(roots: Seq<usize>, t: Seq<Need>, x: int, c: Counts)
    requires
        roots_limited(roots, t),
        0 <= x < t.len(),
        forall|j: int| 0 <= j < roots.len() ==> (#[trigger] roots[j]) < t.len(),
    ensures
        roots_limited(roots, t.update(x, Some(needs::narrowed(t[x], c)))),
{
    let after = t.update(x, Some(needs::narrowed(t[x], c)));
    assert forall|k: int| 0 <= k < roots.len() implies needs::le(
        after[(#[trigger] roots[k]) as int],
        Some(bag::none_at_all()),
    ) by {
        let r = roots[k] as int;
        assert(needs::le(t[r], Some(bag::none_at_all())));
        if r == x {
            let low = needs::narrowed(t[x], c);
            assert forall|s: u32| #[trigger] low(s) <= bag::none_at_all()(s) by {
                assert((t[x]->0)(s) <= bag::none_at_all()(s));
            }
        }
    }
}

/// A table with one entry for each state, limited at the roots.
fn seeded_table(n: usize, roots: &Vec<usize>) -> (table: Vec<Option<Bag>>)
    requires
        forall|j: int| 0 <= j < roots@.len() ==> (#[trigger] roots@[j]) < n,
    ensures
        needs::needs(table@) == needs::seeded(roots@, n as nat, roots@.len()),
        table@.len() == n,
{
    let mut table: Vec<Option<Bag>> = Vec::new();
    let mut x: usize = 0;
    while x < n
        invariant
            x <= n,
            table@.len() == x,
            forall|y: int| 0 <= y < x ==> #[trigger] table@[y] is None,
        decreases n - x,
    {
        table.push(None);
        x += 1;
    }
    let mut k: usize = 0;
    assert(needs::needs(table@) =~= needs::unlimited(n as nat));
    while k < roots.len()
        invariant
            k <= roots@.len(),
            table@.len() == n,
            forall|j: int| 0 <= j < roots@.len() ==> (#[trigger] roots@[j]) < n,
            needs::needs(table@) == needs::seeded(roots@, n as nat, k as nat),
        decreases roots@.len() - k,
    {
        let ghost t = needs::needs(table@);
        let root: usize = roots[k];
        table.set(root, Some(Bag::new()));
        k += 1;
        assert(needs::needs(table@) =~= t.update(root as int, Some(bag::none_at_all())));
    }
    table
}

/// What one rule passes down to the child at position `p`.
fn side_sum(
    rule: &FlatRule,
    p: usize,
    left: bool,
    inside: &Vec<Option<Bag>>,
    table: &Vec<Option<Bag>>,
) -> (sum: Sum)
    requires
        table@.len() == inside@.len(),
        needs::rule_below(rule@, inside@.len()),
        p < rule.tokens@.len(),
    ensures
        sums_to(
            sum,
            needs::side_need(rule@, p as int, left, needs::needs(inside@), needs::needs(table@)),
        ),
{
    let ghost t = needs::needs(table@);
    assert(t[rule.result as int] == needs::need_in(table@[rule.result as int]));
    let base = match &table[rule.result] {
        Some(base) => base,
        None => {
            return Sum::Missing;
        },
    };
    let length: usize = rule.tokens.len();
    let (from, to): (usize, usize) = if left {
        (0, p)
    } else {
        (p + 1, length)
    };
    proof {
        assert(rule.tokens@.subrange(from as int, to as int) =~= needs::side(
            rule.tokens@,
            p as int,
            left,
        ));
        assert forall|q: int| 0 <= q < rule.tokens@.len() implies needs::token_below(
            #[trigger] rule.tokens@[q],
            inside@.len(),
        ) by {
            assert(rule@.tokens[q] == rule.tokens@[q]);
        }
    }
    match sum_of(&rule.tokens, from, to, inside) {
        Sum::Missing => Sum::Missing,
        Sum::TooLarge => {
            proof {
                let c = needs::need_of(
                    needs::side(rule.tokens@, p as int, left),
                    needs::needs(inside@),
                )->0;
                let s = choose|s: u32| !(#[trigger] c(s) <= u32::MAX);
                assert(!(bag::plus(base@, c)(s) <= u32::MAX));
            }
            Sum::TooLarge
        },
        Sum::Found(part) => {
            let mut sum = base.copy();
            if sum.absorb(&part) {
                Sum::Found(sum)
            } else {
                Sum::TooLarge
            }
        },
    }
}

/// The leaves that every completion of a state has on one side of it, by state; `None`
/// where counts get too large.
pub fn outside_table(
    rules: &Vec<FlatRule>,
    roots: &Vec<usize>,
    inside: &Vec<Option<Bag>>,
    left: bool,
) -> (r: Option<Vec<Option<Bag>>>)
    requires
        needs::rules_below(needs::token_rules(rules@), inside@.len()),
        forall|j: int| 0 <= j < roots@.len() ==> (#[trigger] roots@[j]) < inside@.len(),
    ensures
        match r {
            Some(table) => needs::is_outside(
                needs::token_rules(rules@),
                roots@,
                needs::needs(inside@),
                left,
                needs::needs(table@),
            ),
            None => needs::outside_too_large(
                needs::token_rules(rules@),
                roots@,
                needs::needs(inside@),
                left,
            ),
        },
{
    let ghost all = needs::token_rules(rules@);
    let ghost within = needs::needs(inside@);
    let n: usize = inside.len();
    let mut table = seeded_table(n, roots);
    let ghost mut steps: Seq<(int, int)> = Seq::empty();
    proof {
        lemma_seeded_roots(roots@, n as nat, roots@.len());
        assert forall|other: Seq<Need>|
            other.len() == n && #[trigger] needs::outside_closed(
                all,
                roots@,
                within,
                left,
                other,
            ) implies needs::table_le(other, needs::needs(table@)) by {
            lemma_seeded(all, roots@, within, left, roots@.len(), other);
        }
    }
    let mut changed = true;
    while changed
        invariant
            all == needs::token_rules(rules@),
            within == needs::needs(inside@),
            needs::rules_below(all, n as nat),
            n == inside@.len(),
            table@.len() == n,
            forall|j: int| 0 <= j < roots@.len() ==> (#[trigger] roots@[j]) < n,
            roots_limited(roots@, needs::needs(table@)),
            needs::needs(table@) == needs::outside_stage(all, roots@, within, left, steps),
                needs::all_pass_down(all, within, steps),
            forall|other: Seq<Need>|
                other.len() == n && #[trigger] needs::outside_closed(
                    all,
                    roots@,
                    within,
                    left,
                    other,
                ) ==> needs::table_le(other, needs::needs(table@)),
            !changed ==> needs::outside_closed(all, roots@, within, left, needs::needs(table@)),
        decreases
            open_states(table@),
            weight(table@),
            if changed {
                1int
            } else {
                0int
            },
    {
        changed = false;
        let ghost start = table@;
        let mut i: usize = 0;
        while i < rules.len()
            invariant
                i <= rules@.len(),
                all == needs::token_rules(rules@),
                within == needs::needs(inside@),
                needs::rules_below(all, n as nat),
                n == inside@.len(),
                table@.len() == n,
                forall|j: int| 0 <= j < roots@.len() ==> (#[trigger] roots@[j]) < n,
                roots_limited(roots@, needs::needs(table@)),
                needs::needs(table@) == needs::outside_stage(all, roots@, within, left, steps),
                needs::all_pass_down(all, within, steps),
                forall|other: Seq<Need>|
                    other.len() == n && #[trigger] needs::outside_closed(
                        all,
                        roots@,
                        within,
                        left,
                        other,
                    ) ==> needs::table_le(other, needs::needs(table@)),
                changed ==> further(start, table@),
                !changed ==> level(start, table@),
                !changed ==> forall|j: int, q: int|
                    j < i && #[trigger] needs::passes_down(all, within, j, q) ==> needs::le(
                        needs::needs(table@)[needs::child_at(all, j, q)],
                        needs::side_need(all[j], q, left, within, needs::needs(table@)),
                    ),
            decreases rules@.len() - i,
        {
            let rule = &rules[i];
            proof {
                assert(all[i as int] == rule@);
                assert(needs::rule_below(all[i as int], n as nat));
                assert(rule.tokens@.subrange(0, rule.tokens@.len() as int) =~= rule.tokens@);
                assert forall|q: int| 0 <= q < rule.tokens@.len() implies needs::token_below(
                    #[trigger] rule.tokens@[q],
                    inside@.len(),
                ) by {
                    assert(all[i as int].tokens[q] == rule.tokens@[q]);
                }
            }
            let length: usize = rule.tokens.len();
            if all_present(&rule.tokens, 0, length, inside) {
                let mut p: usize = 0;
                while p < length
                    invariant
                        p <= length,
                        length == rule.tokens@.len(),
                        i < rules@.len(),
                        *rule == rules@[i as int],
                        all == needs::token_rules(rules@),
                        all[i as int] == rule@,
                        within == needs::needs(inside@),
                        needs::rules_below(all, n as nat),
                        needs::rule_below(rule@, n as nat),
                        needs::is_usable(all[i as int], within),
                        n == inside@.len(),
                        table@.len() == n,
                        forall|j: int| 0 <= j < roots@.len() ==> (#[trigger] roots@[j]) < n,
                        roots_limited(roots@, needs::needs(table@)),
                        needs::needs(table@) == needs::outside_stage(
                            all,
                            roots@,
                            within,
                            left,
                            steps,
                        ),
                        needs::all_pass_down(all, within, steps),
                        forall|other: Seq<Need>|
                            other.len() == n && #[trigger] needs::outside_closed(
                                all,
                                roots@,
                                within,
                                left,
                                other,
                            ) ==> needs::table_le(other, needs::needs(table@)),
                        changed ==> further(start, table@),
                        !changed ==> level(start, table@),
                        !changed ==> forall|j: int, q: int|
                            (j < i || (j == i && q < p)) && #[trigger] needs::passes_down(
                                all,
                                within,
                                j,
                                q,
                            ) ==> needs::le(
                                needs::needs(table@)[needs::child_at(all, j, q)],
                                needs::side_need(all[j], q, left, within, needs::needs(table@)),
                            ),
                    decreases length - p,
                {
                    if let Tok::Child(x) = rule.tokens[p] {
                        let ghost t = needs::needs(table@);
                        let ghost step = (i as int, p as int);
                        proof {
                            assert(needs::token_below(rule@.tokens[p as int], n as nat));
                            assert(needs::passes_down(all, within, i as int, p as int));
                            assert(steps.push(step).drop_last() =~= steps);
                            assert(needs::child_at(all, i as int, p as int) == x);
                        }
                        match side_sum(rule, p, left, inside, &table) {
                            Sum::Missing => {},
                            Sum::TooLarge => {
                                assert(needs::outside_overflow(
                                    all,
                                    roots@,
                                    within,
                                    left,
                                    steps,
                                    i as int,
                                    p as int,
                                ));
                                return None;
                            },
                            Sum::Found(sum) => {
                                proof {
                                    assert forall|other: Seq<Need>|
                                        other.len() == n && #[trigger] needs::outside_closed(
                                            all,
                                            roots@,
                                            within,
                                            left,
                                            other,
                                        ) implies needs::table_le(
                                        other,
                                        t.update(
                                            x as int,
                                            Some(needs::narrowed(t[x as int], sum@)),
                                        ),
                                    ) by {
                                        lemma_outside_step(
                                            all,
                                            roots@,
                                            within,
                                            left,
                                            t,
                                            i as int,
                                            p as int,
                                            sum@,
                                            other,
                                        );
                                    }
                                    lemma_roots_stay(roots@, t, x as int, sum@);
                                }
                                if meet_update(&mut table, x, sum) {
                                    changed = true;
                                }
                                proof {
                                    steps = steps.push(step);
                                }
                            },
                        }
                    }
                    p += 1;
                }
            }
            i += 1;
        }
    }
    Some(table)
}

} // verus!
