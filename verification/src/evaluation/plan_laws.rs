//! What planning an evaluation promises, in terms of what the caller gives.
use crate::evaluation::run_plan;
use crate::evaluation::run_plan::TreeInterpretationKind;
use crate::text;
use vstd::prelude::*;

verus! {

/// Constituency trees are scored for two classes of algebras and no other: as they stand
/// where trees keep their arities, and after undoing the binarization where trees were
/// binarized.
pub proof fn law_scored_classes(class: Seq<char>)
    ensures
        run_plan::tree_kind(class) == Some(TreeInterpretationKind::Plain) <==> class
            == "de.up.ling.irtg.algebra.TreeWithAritiesAlgebra"@,
        run_plan::tree_kind(class) == Some(TreeInterpretationKind::Binarizing) <==> class
            == "de.up.ling.irtg.algebra.BinarizingTreeWithAritiesAlgebra"@,
        run_plan::tree_kind(class) is None <==> class
            != "de.up.ling.irtg.algebra.TreeWithAritiesAlgebra"@ && class
            != "de.up.ling.irtg.algebra.BinarizingTreeWithAritiesAlgebra"@,
        "de.up.ling.irtg.algebra.TreeWithAritiesAlgebra"@
            != "de.up.ling.irtg.algebra.BinarizingTreeWithAritiesAlgebra"@,
{
    reveal_strlit("de.up.ling.irtg.algebra.TreeWithAritiesAlgebra");
    reveal_strlit("de.up.ling.irtg.algebra.BinarizingTreeWithAritiesAlgebra");
    assert("de.up.ling.irtg.algebra.TreeWithAritiesAlgebra"@.len()
        != "de.up.ling.irtg.algebra.BinarizingTreeWithAritiesAlgebra"@.len());
}

/// Whether a text has no white space.
pub open spec fn solid(s: Seq<char>) -> bool {
    forall|i: int| 0 <= i < s.len() ==> !text::white_space(#[trigger] s[i])
}

/// White space between two texts separates their words: none is lost, none is split and
/// none is counted twice.
pub proof fn law_word_counts_add(a: Seq<char>, space: char, b: Seq<char>)
    requires
        text::white_space(space),
    ensures
        run_plan::word_total(a + seq![space] + b) == run_plan::word_total(a)
            + run_plan::word_total(b),
    decreases b.len(),
{
    let all = a + seq![space] + b;
    if b.len() == 0 {
        assert(all.drop_last() =~= a);
        assert(all.last() == space);
    } else {
        law_word_counts_add(a, space, b.drop_last());
        assert(all.drop_last() =~= a + seq![space] + b.drop_last());
        assert(all.last() == b.last());
        let n = all.len() - 1;
        if b.len() == 1 {
            assert(all[n - 1] == space);
        } else {
            assert(all[n - 1] == b[b.len() - 2]);
        }
    }
}

/// A text without white space is one word, unless it is empty.
pub proof fn law_solid_text_is_one_word(s: Seq<char>)
    requires
        solid(s),
    ensures
        run_plan::word_total(s) == (if s.len() == 0 {
            0nat
        } else {
            1nat
        }),
    decreases s.len(),
{
    if s.len() > 0 {
        let front = s.drop_last();
        assert(solid(front)) by {
            assert forall|i: int| 0 <= i < front.len() implies !text::white_space(
                #[trigger] front[i],
            ) by {
                assert(front[i] == s[i]);
            }
        }
        law_solid_text_is_one_word(front);
        assert(!text::white_space(s[s.len() - 1]));
        if s.len() > 1 {
            assert(!text::white_space(s[s.len() - 2]));
        }
    }
}

/// The name that is chosen: a favourite that is listed, with none before it listed; or, where
/// no favourite is listed, the first name of the list. Nothing is chosen from no names.
pub proof fn law_first_favourite_wins(names: Seq<Seq<char>>, favourites: Seq<Seq<char>>)
    ensures
        forall|i: int|
            #![trigger favourites[i]]
            0 <= i < favourites.len() && names.contains(favourites[i]) && (forall|j: int|
                0 <= j < i ==> !names.contains(#[trigger] favourites[j]))
                ==> run_plan::preferred(names, favourites) == Some(favourites[i]),
        (forall|i: int| 0 <= i < favourites.len() ==> !names.contains(#[trigger] favourites[i]))
            ==> run_plan::preferred(names, favourites) == (if names.len() == 0 {
            None
        } else {
            Some(names[0])
        }),
    decreases favourites.len(),
{
    if favourites.len() > 0 {
        let rest = favourites.skip(1);
        law_first_favourite_wins(names, rest);
        assert(run_plan::has_name(names, favourites[0]) <==> names.contains(favourites[0]));
        assert forall|i: int|
            #![trigger favourites[i]]
            0 <= i < favourites.len() && names.contains(favourites[i]) && (forall|j: int|
                0 <= j < i ==> !names.contains(#[trigger] favourites[j])) implies
            run_plan::preferred(names, favourites) == Some(favourites[i]) by {
            if i > 0 {
                assert(!names.contains(favourites[0]));
                assert(rest[i - 1] == favourites[i]);
                assert forall|j: int| 0 <= j < i - 1 implies !names.contains(
                    #[trigger] rest[j],
                ) by {
                    assert(rest[j] == favourites[j + 1]);
                }
            }
        }
        if forall|i: int| 0 <= i < favourites.len() ==> !names.contains(#[trigger] favourites[i]) {
            assert(!names.contains(favourites[0]));
            assert forall|i: int| 0 <= i < rest.len() implies !names.contains(
                #[trigger] rest[i],
            ) by {
                assert(rest[i] == favourites[i + 1]);
            }
        }
    }
}

/// An evaluation prefers the interpretation `english`, then `i`; the interactive program
/// prefers `string` to both.
pub proof fn law_favourites(names: Seq<Seq<char>>)
    ensures
        ({
            let chosen = run_plan::preferred(names, run_plan::evaluation_favourites());
            let shown = run_plan::preferred(names, run_plan::interactive_favourites());
            &&& names.contains("english"@) ==> chosen == Some("english"@)
            &&& !names.contains("english"@) && names.contains("i"@) ==> chosen == Some("i"@)
            &&& !names.contains("english"@) && !names.contains("i"@) && names.len() > 0 ==> chosen
                == Some(names[0])
            &&& names.contains("string"@) ==> shown == Some("string"@)
            &&& !names.contains("string"@) ==> shown == chosen
        }),
{
    let two = run_plan::evaluation_favourites();
    let three = run_plan::interactive_favourites();
    assert(run_plan::has_name(names, "english"@) <==> names.contains("english"@));
    assert(run_plan::has_name(names, "i"@) <==> names.contains("i"@));
    assert(run_plan::has_name(names, "string"@) <==> names.contains("string"@));
    assert(three.skip(1) =~= two);
    assert(two.skip(1)[0] == "i"@);
    assert(two.skip(1).skip(1) =~= Seq::empty());
    reveal_with_fuel(run_plan::preferred, 4);
}

} // verus!
