//! What registering an image does, in terms of symbols and their images.
use crate::homomorphism;
use crate::homomorphism::{HomModel, HomomorphismError};
use crate::ids::Symbol;
use crate::terms;
use crate::terms::Term;
use vstd::prelude::*;

verus! {

/// Whether variables are those below an arity, each once.
pub open spec fn each_once(vars: Seq<usize>, arity: usize) -> bool {
    vars.no_duplicates() && forall|v: usize| #[trigger] vars.contains(v) <==> v < arity
}

proof fn lemma_each_once(vars: Seq<usize>, arity: usize)
    ensures
        homomorphism::nondeleting(vars, arity) <==> each_once(vars, arity),
{
    if homomorphism::nondeleting(vars, arity) {
        assert forall|i: int, j: int| 0 <= i < vars.len() && 0 <= j < vars.len() && i
            != j implies vars[i] != vars[j] by {
            assert(!homomorphism::faulty(vars, arity, i));
            assert(!homomorphism::faulty(vars, arity, j));
            if i < j {
                assert(vars.take(j)[i] == vars[i]);
            } else {
                assert(vars.take(i)[j] == vars[j]);
            }
        }
        assert forall|v: usize| #[trigger] vars.contains(v) <==> v < arity by {
            if vars.contains(v) {
                let j = choose|j: int| 0 <= j < vars.len() && vars[j] == v;
                assert(!homomorphism::faulty(vars, arity, j));
            }
        }
    }
    if each_once(vars, arity) {
        assert forall|j: int| 0 <= j < vars.len() implies !#[trigger] homomorphism::faulty(
            vars,
            arity,
            j,
        ) by {
            assert(vars.contains(vars[j]));
            if vars.take(j).contains(vars[j]) {
                let i = choose|i: int| 0 <= i < vars.take(j).len() && vars.take(j)[i] == vars[j];
                assert(vars[i] == vars[j]);
            }
        }
    }
}

/// A symbol is registered exactly where its image has every variable below its arity once
/// and no other, and where it is not registered with another arity or another image. Then
/// it has the image, and every other symbol keeps its own; else nothing changes.
pub proof fn law_images_are_registered(
    before: HomModel,
    f: Symbol,
    arity: usize,
    image: Term,
    r: Result<(), HomomorphismError>,
    after: HomModel,
)
    requires
        before.well_formed(),
        before.terms.len() < usize::MAX,
        homomorphism::add_result(before, f, arity, image, r, after),
    ensures
        r is Ok <==> each_once(terms::term_vars(image), arity) && (before.maps(f)
            ==> before.arities[f] == arity && before.image(f) == image),
        r is Ok ==> after.maps(f) && after.arities[f] == arity && after.image(f) == image,
        r is Err ==> after == before,
        forall|g: Symbol|
            g != f ==> (#[trigger] after.maps(g) <==> before.maps(g)) && (before.maps(g)
                ==> after.arities[g] == before.arities[g] && after.image(g) == before.image(g)),
{
    lemma_each_once(terms::term_vars(image), arity);
    if r is Ok && !before.maps(f) {
        if before.terms.contains(image) {
            let t = before.terms.index_of(image);
            assert(before.terms[t] == image);
        }
    }
}

/// The reasons for which a symbol is refused: another arity, an image with a variable that
/// is out of range, that occurs twice or that is missing, or another image.
pub proof fn law_refused_images(
    before: HomModel,
    f: Symbol,
    arity: usize,
    image: Term,
    e: HomomorphismError,
    after: HomModel,
)
    requires
        homomorphism::add_result(
            before,
            f,
            arity,
            image,
            Err::<(), HomomorphismError>(e),
            after,
        ),
    ensures
        match e {
            HomomorphismError::ArityMismatch { symbol, first, second } => symbol == f && second
                == arity && before.maps(f) && first == before.arities[f] && first != second,
            HomomorphismError::OutOfRangeVariable { symbol, variable, arity: n } => symbol == f
                && n == arity && variable >= arity && terms::term_vars(image).contains(variable),
            HomomorphismError::DuplicateVariable { symbol, variable } => symbol == f && exists|
                i: int,
                j: int,
            |
                0 <= i < j < terms::term_vars(image).len() && #[trigger] terms::term_vars(image)[i]
                    == variable && #[trigger] terms::term_vars(image)[j] == variable,
            HomomorphismError::MissingVariable { symbol, variable } => symbol == f && variable
                < arity && !terms::term_vars(image).contains(variable),
            HomomorphismError::ConflictingSourceTerm { symbol } => symbol == f && before.maps(f)
                && before.image(f) != image,
            _ => false,
        },
{
    let vars = terms::term_vars(image);
    let r = Err::<(), HomomorphismError>(e);
    if !(before.maps(f) && before.arities[f] != arity) && !homomorphism::nondeleting(
        vars,
        arity,
    ) {
        if exists|j: int| #[trigger]
            homomorphism::first_fault(vars, arity, j) && e == (if vars[j] >= arity {
                HomomorphismError::OutOfRangeVariable { symbol: f, variable: vars[j], arity }
            } else {
                HomomorphismError::DuplicateVariable { symbol: f, variable: vars[j] }
            }) {
            let j = choose|j: int| #[trigger]
                homomorphism::first_fault(vars, arity, j) && e == (if vars[j] >= arity {
                    HomomorphismError::OutOfRangeVariable { symbol: f, variable: vars[j], arity }
                } else {
                    HomomorphismError::DuplicateVariable { symbol: f, variable: vars[j] }
                });
            assert(vars.contains(vars[j]));
            if vars[j] < arity {
                let i = choose|i: int| 0 <= i < vars.take(j).len() && vars.take(j)[i] == vars[j];
                assert(vars[i] == vars[j]);
            }
        }
    }
}

/// The images with a root symbol are those whose root it is, by their numbers.
pub proof fn law_images_by_root(images: Seq<Term>, f: Symbol)
    requires
        images.len() <= usize::MAX,
    ensures
        forall|i: int, j: int|
            0 <= i < j < homomorphism::images_with_root(images, f).len() ==> (
            #[trigger] homomorphism::images_with_root(images, f)[i]) < (
            #[trigger] homomorphism::images_with_root(images, f)[j]),
        forall|k: usize| #[trigger]
            homomorphism::images_with_root(images, f).contains(k) <==> k < images.len() && (
            images[k as int] matches Term::App(g, args) && g == f),
    decreases images.len(),
{
    if images.len() > 0 {
        let n = images.len() - 1;
        let front = images.drop_last();
        law_images_by_root(front, f);
        let before = homomorphism::images_with_root(front, f);
        let all = homomorphism::images_with_root(images, f);
        assert forall|i: int, j: int| 0 <= i < j < all.len() implies (#[trigger] all[i]) < (
        #[trigger] all[j]) by {
            assert(all[i] == before[i]);
            assert(before.contains(before[i]));
            if j < before.len() {
                assert(all[j] == before[j]);
            }
        }
        assert forall|k: usize| #[trigger] all.contains(k) <==> k < images.len() && (
        images[k as int] matches Term::App(g, args) && g == f) by {
            if all.contains(k) {
                let i = choose|i: int| 0 <= i < all.len() && all[i] == k;
                if i < before.len() {
                    assert(before[i] == k);
                    assert(before.contains(k));
                    assert(front[k as int] == images[k as int]);
                }
            }
            if k < images.len() && (images[k as int] matches Term::App(g, args) && g == f) {
                if k < n {
                    assert(front[k as int] == images[k as int]);
                    assert(before.contains(k));
                    let i = choose|i: int| 0 <= i < before.len() && before[i] == k;
                    assert(all[i] == k);
                } else {
                    assert(all[all.len() - 1] == k);
                }
            }
        }
    }
}

} // verus!
