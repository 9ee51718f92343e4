//! How many items of a chart a best-first search has to finalize under an estimate.
use super::scorer;
use super::scorer::WeightScorer;
use crate::heuristic;
use crate::heuristic::Score;
use crate::ids::StateId;
use vstd::prelude::*;

verus! {

/// Whether an item is finalized: its inside score times its estimate is no worse than the
/// best goal.
pub open spec fn is_finalized<W: WeightScorer>(
    w: &W,
    inner: W::Value,
    estimate: W::Value,
    best: W::Value,
) -> bool {
    best.at_most(&w.product(inner, estimate))
}

/// What a search finalizes without an estimate, with either estimate, and with the lesser
/// one.
#[derive(Clone, Copy, PartialEq, Eq, Structural, Debug)]
pub struct ProbeCounts {
    pub reachable: usize,
    pub zero: usize,
    pub sx: usize,
    pub f: usize,
    pub min: usize,
}

/// One if a condition holds.
pub open spec fn one_if(b: bool) -> nat {
    if b {
        1
    } else {
        0
    }
}

/// Whether an item has an inside score better than zero.
pub open spec fn is_reachable<W: WeightScorer>(w: &W, inner: W::Value) -> bool {
    !inner.at_most(&w.zero_value())
}

/// The counts over the first `n` items.
pub open spec fn counted<W: WeightScorer>(
    w: &W,
    inner: Seq<W::Value>,
    sx: Seq<W::Value>,
    f: Seq<W::Value>,
    best: W::Value,
    n: nat,
) -> (nat, nat, nat, nat, nat)
    decreases n,
{
    if n == 0 {
        (0, 0, 0, 0, 0)
    } else {
        let (reachable, zero, by_sx, by_f, by_min) = counted(
            w,
            inner,
            sx,
            f,
            best,
            (n - 1) as nat,
        );
        let x = inner[n - 1];
        let here = is_reachable(w, x);
        (
            reachable + one_if(here),
            zero + one_if(here && best.at_most(&x)),
            by_sx + one_if(here && is_finalized(w, x, sx[n - 1], best)),
            by_f + one_if(here && is_finalized(w, x, f[n - 1], best)),
            by_min + one_if(
                here && is_finalized(w, x, heuristic::lesser(sx[n - 1], f[n - 1]), best),
            ),
        )
    }
}

/// One more if a condition holds.
fn count_if(n: usize, b: bool) -> (r: usize)
    requires
        n < usize::MAX,
    ensures
        r == n + one_if(b),
{
    if b {
        n + 1
    } else {
        n
    }
}

/// Counts the items of a chart that are finalized, given their inside scores, two estimates
/// of each, and the score of the best goal.
pub fn probe<W: WeightScorer>(
    w: &W,
    inner: &Vec<W::Value>,
    sx: &Vec<W::Value>,
    f: &Vec<W::Value>,
    best: W::Value,
) -> (r: ProbeCounts)
    requires
        sx@.len() == inner@.len(),
        f@.len() == inner@.len(),
    ensures
        (r.reachable as nat, r.zero as nat, r.sx as nat, r.f as nat, r.min as nat) == counted(
            w,
            inner@,
            sx@,
            f@,
            best,
            inner@.len(),
        ),
{
    let mut r = ProbeCounts { reachable: 0, zero: 0, sx: 0, f: 0, min: 0 };
    let zero = w.zero();
    let count: usize = inner.len();
    let mut i: usize = 0;
    while i < count
        invariant
            i <= count,
            count == inner@.len(),
            sx@.len() == inner@.len(),
            f@.len() == inner@.len(),
            zero == w.zero_value(),
            r.reachable <= i,
            r.zero <= i,
            r.sx <= i,
            r.f <= i,
            r.min <= i,
            (r.reachable as nat, r.zero as nat, r.sx as nat, r.f as nat, r.min as nat) == counted(
                w,
                inner@,
                sx@,
                f@,
                best,
                i as nat,
            ),
        decreases count - i,
    {
        let x = inner[i];
        if w.better(x, zero) {
            let lesser = if f[i].is_less(&sx[i]) {
                f[i]
            } else {
                sx[i]
            };
            let by_zero = !x.is_less(&best);
            let by_sx = !w.times(x, sx[i]).is_less(&best);
            let by_f = !w.times(x, f[i]).is_less(&best);
            let by_min = !w.times(x, lesser).is_less(&best);
            r =
            ProbeCounts {
                reachable: r.reachable + 1,
                zero: count_if(r.zero, by_zero),
                sx: count_if(r.sx, by_sx),
                f: count_if(r.f, by_f),
                min: count_if(r.min, by_min),
            };
        }
        i += 1;
    }
    r
}

/// The best inside score of an accepting state, or zero where none is better.
pub fn best_goal<W: WeightScorer>(w: &W, inner: &Vec<W::Value>, accepting: &Vec<StateId>) -> (best:
    W::Value)
    requires
        forall|i: int| 0 <= i < accepting@.len() ==> (#[trigger] accepting@[i]).0 < inner@.len(),
    ensures
        forall|i: int|
            0 <= i < accepting@.len() ==> inner@[(#[trigger] accepting@[i]).0 as int].at_most(
                &best,
            ),
        w.zero_value().at_most(&best),
        best == w.zero_value() || exists|i: int|
            0 <= i < accepting@.len() && inner@[(#[trigger] accepting@[i]).0 as int] == best,
{
    let mut best = w.zero();
    proof {
        scorer::lemma_at_most_itself(best);
    }
    let mut i: usize = 0;
    while i < accepting.len()
        invariant
            i <= accepting@.len(),
            forall|i: int| 0 <= i < accepting@.len() ==> (#[trigger] accepting@[i]).0 < inner@.len(),
            forall|k: int|
                0 <= k < i ==> inner@[(#[trigger] accepting@[k]).0 as int].at_most(&best),
            w.zero_value().at_most(&best),
            best == w.zero_value() || exists|k: int|
                0 <= k < i && inner@[(#[trigger] accepting@[k]).0 as int] == best,
        decreases accepting@.len() - i,
    {
        let x = inner[accepting[i].index()];
        let ghost earlier = best;
        if w.better(x, best) {
            proof {
                <W::Value as Score>::at_most_total(&x, &earlier);
                <W::Value as Score>::at_most_transitive(&w.zero_value(), &earlier, &x);
                scorer::lemma_at_most_itself(x);
                assert forall|k: int| 0 <= k < i + 1 implies inner@[(
                #[trigger] accepting@[k]).0 as int].at_most(&x) by {
                    if k < i {
                        <W::Value as Score>::at_most_transitive(
                            &inner@[accepting@[k].0 as int],
                            &earlier,
                            &x,
                        );
                    }
                }
                assert(inner@[accepting@[i as int].0 as int] == x);
            }
            best = x;
        }
        i += 1;
    }
    best
}

/// With the lesser of two estimates no more items are finalized than with either.
pub proof fn law_lesser_estimate_finalizes_fewer<W: WeightScorer>(
    w: &W,
    inner: W::Value,
    sx: W::Value,
    f: W::Value,
    best: W::Value,
)
    requires
        w.is_score(inner),
        w.is_score(sx),
        w.is_score(f),
        is_finalized(w, inner, heuristic::lesser(sx, f), best),
    ensures
        is_finalized(w, inner, sx, best),
        is_finalized(w, inner, f, best),
        best.at_most(&inner),
{
    let e = heuristic::lesser(sx, f);
    <W::Value as Score>::at_most_total(&sx, &f);
    scorer::lemma_at_most_itself(inner);
    scorer::lemma_at_most_itself(e);
    w.product_is_monotone(inner, e, inner, sx);
    w.product_is_monotone(inner, e, inner, f);
    w.product_shrinks(inner, e);
    <W::Value as Score>::at_most_transitive(&best, &w.product(inner, e), &w.product(inner, sx));
    <W::Value as Score>::at_most_transitive(&best, &w.product(inner, e), &w.product(inner, f));
    <W::Value as Score>::at_most_transitive(&best, &w.product(inner, e), &inner);
}

} // verus!
