//! The order in which a replay comes to its products.
use super::collect;
use super::data::RightModel;
use super::joins::LeftModel;
use crate::ids::StateId;
use vstd::prelude::*;

verus! {

/// The pairs after the first `n` rules on the left were tried with rule `j` on the right:
/// each that joins over the pairs there were before adds its result, unless it is there.
pub open spec fn with_results(
    left: LeftModel,
    right: RightModel,
    pairs: Seq<(StateId, StateId)>,
    j: int,
    n: nat,
) -> Seq<(StateId, StateId)>
    decreases n,
{
    if n == 0 {
        pairs
    } else {
        let earlier = with_results(left, right, pairs, j, (n - 1) as nat);
        let pair = (left.results[n - 1], right.results[j]);
        if collect::is_joinable(left, right, pairs, n - 1, j) && !earlier.contains(pair) {
            earlier.push(pair)
        } else {
            earlier
        }
    }
}

/// The pairs that were found so far, in order, and the right states that were visited.
pub struct WalkModel {
    pub pairs: Seq<(StateId, StateId)>,
    pub visited: Set<StateId>,
}

/// What is found by visiting a right state: nothing if it was visited before; otherwise the
/// pairs of its rules. At most `depth` states are visited below each other.
pub open spec fn after_visit(
    left: LeftModel,
    right: RightModel,
    w: WalkModel,
    q: StateId,
    depth: nat,
) -> WalkModel
    decreases depth, 0nat, 0nat,
{
    if depth == 0 || w.visited.contains(q) {
        w
    } else {
        after_rules(
            left,
            right,
            WalkModel { pairs: w.pairs, visited: w.visited.insert(q) },
            q,
            right.children.len(),
            (depth - 1) as nat,
        )
    }
}

/// What is found by the first `n` rules on the right, as far as they result in `q`: each
/// visits its children and then adds its pairs.
pub open spec fn after_rules(
    left: LeftModel,
    right: RightModel,
    w: WalkModel,
    q: StateId,
    n: nat,
    depth: nat,
) -> WalkModel
    decreases depth, 2nat, n,
{
    if n == 0 {
        w
    } else {
        let earlier = after_rules(left, right, w, q, (n - 1) as nat, depth);
        if right.results[n - 1] == q {
            let below = after_children(
                left,
                right,
                earlier,
                right.children[n - 1],
                right.children[n - 1].len(),
                depth,
            );
            WalkModel {
                pairs: with_results(left, right, below.pairs, n - 1, left.children.len()),
                visited: below.visited,
            }
        } else {
            earlier
        }
    }
}

/// What is found by visiting the first `p` states of a list.
pub open spec fn after_children(
    left: LeftModel,
    right: RightModel,
    w: WalkModel,
    list: Seq<StateId>,
    p: nat,
    depth: nat,
) -> WalkModel
    decreases depth, 1nat, p,
{
    if p == 0 {
        w
    } else {
        after_visit(
            left,
            right,
            after_children(left, right, w, list, (p - 1) as nat, depth),
            list[p - 1],
            depth,
        )
    }
}

/// The pairs that are collected from the initial states down, in order.
pub open spec fn collected(
    left: LeftModel,
    right: RightModel,
    initial: Seq<StateId>,
    states: nat,
) -> Seq<(StateId, StateId)> {
    after_children(
        left,
        right,
        WalkModel { pairs: Seq::empty(), visited: Set::empty() },
        initial,
        initial.len(),
        states + 1,
    ).pairs
}

/// Rules on the left that do not join add nothing.
pub proof fn lemma_results_skip(
    left: LeftModel,
    right: RightModel,
    pairs: Seq<(StateId, StateId)>,
    j: int,
    m: nat,
    n: nat,
)
    requires
        m <= n,
        forall|i: int| m <= i < n ==> !#[trigger] collect::is_joinable(left, right, pairs, i, j),
    ensures
        with_results(left, right, pairs, j, n) == with_results(left, right, pairs, j, m),
    decreases n - m,
{
    if m < n {
        lemma_results_skip(left, right, pairs, j, m, (n - 1) as nat);
    }
}

/// Rules on the right with other results find nothing.
pub proof fn lemma_rules_skip(
    left: LeftModel,
    right: RightModel,
    w: WalkModel,
    q: StateId,
    m: nat,
    n: nat,
    depth: nat,
)
    requires
        m <= n,
        forall|j: int| m <= j < n ==> #[trigger] right.results[j] != q,
    ensures
        after_rules(left, right, w, q, n, depth) == after_rules(left, right, w, q, m, depth),
    decreases n - m,
{
    if m < n {
        lemma_rules_skip(left, right, w, q, m, (n - 1) as nat, depth);
    }
}

} // verus!
