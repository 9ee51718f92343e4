//! How the rules of a grammar share their images under a homomorphism.
use crate::automaton::RuleModel;
use crate::explicit::Explicit;
use crate::homomorphism::{HomModel, Homomorphism};
use vstd::prelude::*;

verus! {

/// The number of rules whose symbol has image `t`.
pub open spec fn group_size(rules: Seq<RuleModel>, m: HomModel, t: int) -> nat
    decreases rules.len(),
{
    if rules.len() == 0 {
        0
    } else {
        let f = rules.last().symbol;
        group_size(rules.drop_last(), m, t) + if m.maps(f) && m.ids[f] == t {
            1nat
        } else {
            0nat
        }
    }
}

/// The number of images below `n` that some rule has.
pub open spec fn used_groups(rules: Seq<RuleModel>, m: HomModel, n: nat) -> nat
    decreases n,
{
    if n == 0 {
        0
    } else {
        used_groups(rules, m, (n - 1) as nat) + if group_size(rules, m, n - 1) > 0 {
            1nat
        } else {
            0nat
        }
    }
}

/// How rules share images.
#[derive(Clone, Copy, PartialEq, Eq, Structural, Debug)]
pub struct ImageGroups {
    pub groups: usize,
    pub max_rule_arity: usize,
    pub largest: usize,
}

/// Groups the rules of a grammar by the images of their symbols: the number of groups, the
/// greatest number of children of a rule, and the size of the largest group.
pub fn image_groups(grammar: &Explicit, hom: &Homomorphism<'_>) -> (r: ImageGroups)
    ensures
        r.groups == used_groups(grammar@.rules, hom@, hom@.terms.len()),
        forall|i: int|
            0 <= i < grammar@.rules.len() ==> (#[trigger] grammar@.rules[i]).children.len()
                <= r.max_rule_arity,
        r.max_rule_arity == 0 || exists|i: int|
            0 <= i < grammar@.rules.len() && (#[trigger] grammar@.rules[i]).children.len()
                == r.max_rule_arity,
        forall|t: int|
            0 <= t < hom@.terms.len() ==> #[trigger] group_size(grammar@.rules, hom@, t)
                <= r.largest,
        r.largest == 0 || exists|t: int|
            0 <= t < hom@.terms.len() && #[trigger] group_size(grammar@.rules, hom@, t)
                == r.largest,
{
    let rules = grammar.rules();
    let ghost all = grammar@.rules;
    let terms: usize = hom.num_terms();
    let mut sizes: Vec<usize> = vec![0; terms];
    let mut arity: usize = 0;
    let count: usize = rules.len();
    let mut i: usize = 0;
    proof {
        assert(all.take(0) =~= Seq::empty());
        assert forall|t: int| 0 <= t < terms implies #[trigger] sizes@[t] == group_size(
            all.take(0),
            hom@,
            t,
        ) by {}
    }
    while i < count
        invariant
            i <= count,
            count == rules@.len(),
            all == grammar@.rules,
            rules@.len() == all.len(),
            forall|k: int| 0 <= k < rules@.len() ==> (#[trigger] rules@[k])@ == all[k],
            terms == hom@.terms.len(),
            sizes@.len() == terms,
            forall|t: int|
                0 <= t < terms ==> #[trigger] sizes@[t] == group_size(
                    all.take(i as int),
                    hom@,
                    t,
                ) && sizes@[t] <= i,
            forall|k: int| 0 <= k < i ==> (#[trigger] all[k]).children.len() <= arity,
            arity == 0 || exists|k: int|
                0 <= k < i && (#[trigger] all[k]).children.len() == arity,
        decreases count - i,
    {
        let ghost before = sizes@;
        proof {
            assert(rules@[i as int]@ == all[i as int]);
            assert(all.take(i + 1).drop_last() =~= all.take(i as int));
            assert(all.take(i + 1).last() == all[i as int]);
        }
        if rules[i].children.len() > arity {
            arity = rules[i].children.len();
        }
        if let Some(t) = hom.term_id(rules[i].symbol) {
            let size: usize = sizes[t] + 1;
            sizes.set(t, size);
        }
        proof {
            assert forall|t: int| 0 <= t < terms implies #[trigger] sizes@[t] == group_size(
                all.take(i + 1),
                hom@,
                t,
            ) && sizes@[t] <= i + 1 by {
                assert(before[t] == group_size(all.take(i as int), hom@, t));
            }
        }
        i += 1;
    }
    assert(all.take(i as int) =~= all);
    let mut groups: usize = 0;
    let mut largest: usize = 0;
    let mut t: usize = 0;
    while t < terms
        invariant
            t <= terms,
            terms == hom@.terms.len(),
            sizes@.len() == terms,
            forall|t: int| 0 <= t < terms ==> #[trigger] sizes@[t] == group_size(all, hom@, t),
            groups <= t,
            groups == used_groups(all, hom@, t as nat),
            forall|k: int| 0 <= k < t ==> #[trigger] group_size(all, hom@, k) <= largest,
            largest == 0 || exists|k: int|
                0 <= k < t && #[trigger] group_size(all, hom@, k) == largest,
        decreases terms - t,
    {
        assert(sizes@[t as int] == group_size(all, hom@, t as int));
        if sizes[t] > 0 {
            groups += 1;
        }
        if sizes[t] > largest {
            largest = sizes[t];
        }
        t += 1;
    }
    ImageGroups { groups, max_rule_arity: arity, largest }
}

} // verus!
