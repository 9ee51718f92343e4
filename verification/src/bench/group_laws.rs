//! How rules that share an image are counted.
use crate::automaton::RuleModel;
use crate::bench::image_groups;
use crate::homomorphism::HomModel;
use vstd::prelude::*;

verus! {

/// Whether the symbol of a rule has an image with the given number.
pub open spec fn has_image(m: HomModel, rule: RuleModel, t: int) -> bool {
    m.ids.dom().contains(rule.symbol) && m.ids[rule.symbol] == t
}

/// A group has as many rules as have its image: groups of two lists of rules add up, and one
/// rule counts once, in the group of its image.
pub proof fn law_group_sizes_add_up(a: Seq<RuleModel>, b: Seq<RuleModel>, m: HomModel, t: int)
    ensures
        image_groups::group_size(a + b, m, t) == image_groups::group_size(a, m, t)
            + image_groups::group_size(b, m, t),
        forall|rule: RuleModel| #[trigger]
            image_groups::group_size(seq![rule], m, t) == (if has_image(m, rule, t) {
                1nat
            } else {
                0
            }),
    decreases b.len(),
{
    if b.len() == 0 {
        assert(a + b =~= a);
    } else {
        law_group_sizes_add_up(a, b.drop_last(), m, t);
        assert((a + b).drop_last() =~= a + b.drop_last());
        assert((a + b).last() == b.last());
    }
    assert forall|rule: RuleModel| #[trigger]
        image_groups::group_size(seq![rule], m, t) == (if has_image(m, rule, t) {
            1nat
        } else {
            0
        }) by {
        let one = seq![rule];
        assert(one.drop_last() =~= Seq::empty());
        assert(one.last() == rule);
        assert(image_groups::group_size(Seq::empty(), m, t) == 0);
    }
}

proof fn lemma_some_rule(rules: Seq<RuleModel>, m: HomModel, t: int)
    ensures
        image_groups::group_size(rules, m, t) > 0 <==> exists|i: int|
            0 <= i < rules.len() && has_image(m, #[trigger] rules[i], t),
    decreases rules.len(),
{
    if rules.len() > 0 {
        let front = rules.drop_last();
        lemma_some_rule(front, m, t);
        if image_groups::group_size(front, m, t) > 0 {
            let i = choose|i: int| 0 <= i < front.len() && has_image(m, #[trigger] front[i], t);
            assert(has_image(m, rules[i], t));
        } else if has_image(m, rules.last(), t) {
            assert(has_image(m, rules[rules.len() - 1], t));
        }
        if exists|i: int| 0 <= i < rules.len() && has_image(m, #[trigger] rules[i], t) {
            let i = choose|i: int| 0 <= i < rules.len() && has_image(m, #[trigger] rules[i], t);
            if i < front.len() {
                assert(has_image(m, front[i], t));
            }
        }
    }
}

/// The images below `n` that some rule has.
pub open spec fn used(rules: Seq<RuleModel>, m: HomModel, n: nat) -> Set<int> {
    Set::new(
        |t: int|
            0 <= t < n && exists|i: int|
                0 <= i < rules.len() && has_image(m, #[trigger] rules[i], t),
    )
}

/// There are as many groups as there are images that some rule has.
pub proof fn law_used_images_are_counted(rules: Seq<RuleModel>, m: HomModel, n: nat)
    ensures
        used(rules, m, n).finite(),
        image_groups::used_groups(rules, m, n) == used(rules, m, n).len(),
    decreases n,
{
    if n == 0 {
        assert(used(rules, m, n) =~= Set::empty());
    } else {
        let before = used(rules, m, (n - 1) as nat);
        law_used_images_are_counted(rules, m, (n - 1) as nat);
        lemma_some_rule(rules, m, n - 1);
        if image_groups::group_size(rules, m, n - 1) > 0 {
            assert(used(rules, m, n) =~= before.insert(n - 1));
        } else {
            assert(used(rules, m, n) =~= before);
        }
    }
}

} // verus!
