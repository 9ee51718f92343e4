//! Counting the edges that joined rules make.
use super::products;
use super::products::ProductMap;
use super::tally;
use super::tally::{Tally, TallyModel};
use crate::ids::StateId;
use vstd::prelude::*;

verus! {

/// A product that a search finalizes.
#[derive(Clone, Copy, PartialEq, Eq, Structural, Debug)]
pub struct Event {
    pub product: StateId,
    pub left: StateId,
    pub right: StateId,
}

/// How products are looked up.
#[derive(Clone, Copy, PartialEq, Eq, Structural, Debug)]
pub enum CountMode {
    /// All children first, then the test.
    Standard,
    /// Among the products of the right state.
    RightLocal,
    /// The test on the way, without a list of children.
    NoAlloc,
}

/// Whether child `i` is the one that the event is about.
pub open spec fn is_trigger(e: Event, p: int, left: Seq<StateId>, right: Seq<StateId>, i: int) -> bool {
    i == p && left[i] == e.left && right[i] == e.right
}

/// The product of child `i`, if there is one.
pub open spec fn child_product(
    pairs: Seq<(StateId, StateId)>,
    e: Event,
    p: int,
    left: Seq<StateId>,
    right: Seq<StateId>,
    i: int,
) -> Option<StateId> {
    if is_trigger(e, p, left, right, i) {
        Some(e.product)
    } else {
        products::number_of(pairs, left[i], right[i])
    }
}

/// How many products are looked up from child `i` on, up to the first that is missing.
pub open spec fn lookups_from(
    pairs: Seq<(StateId, StateId)>,
    e: Event,
    p: int,
    left: Seq<StateId>,
    right: Seq<StateId>,
    i: int,
) -> nat
    decreases left.len() - i,
{
    if i >= left.len() {
        0
    } else if is_trigger(e, p, left, right, i) {
        lookups_from(pairs, e, p, left, right, i + 1)
    } else if child_product(pairs, e, p, left, right, i) is None {
        1
    } else {
        1 + lookups_from(pairs, e, p, left, right, i + 1)
    }
}

/// Whether two rules make an edge that the event is the first to make: every child has a
/// product, and none before the event's has the event's.
pub open spec fn is_candidate(
    pairs: Seq<(StateId, StateId)>,
    e: Event,
    p: int,
    left: Seq<StateId>,
    right: Seq<StateId>,
) -> bool {
    &&& forall|i: int|
        0 <= i < left.len() ==> #[trigger] child_product(pairs, e, p, left, right, i) is Some
    &&& forall|i: int|
        0 <= i < p ==> #[trigger] child_product(pairs, e, p, left, right, i) != Some(e.product)
}

/// What one pair of rules counts.
pub open spec fn candidate_tally(
    pairs: Seq<(StateId, StateId)>,
    e: Event,
    p: int,
    left: Seq<StateId>,
    right: Seq<StateId>,
) -> TallyModel {
    TallyModel {
        lookups: lookups_from(pairs, e, p, left, right, 0),
        candidates: if is_candidate(pairs, e, p, left, right) {
            1
        } else {
            0
        },
        rejected: if is_candidate(pairs, e, p, left, right) {
            0
        } else {
            1
        },
        ..tally::nothing()
    }
}

/// Whether an event is the first of a child list to have its product there.
pub fn first_trigger(children: &Vec<StateId>, position: usize, product: StateId) -> (b: bool)
    ensures
        b == (position < children@.len() && children@[position as int] == product && forall|i: int|
            0 <= i < position ==> #[trigger] children@[i] != product),
{
    if position >= children.len() {
        return false;
    }
    if children[position] != product {
        return false;
    }
    let mut i: usize = 0;
    while i < position
        invariant
            i <= position < children@.len(),
            forall|k: int| 0 <= k < i ==> #[trigger] children@[k] != product,
        decreases position - i,
    {
        if children[i] == product {
            assert(children@[i as int] == product);
            return false;
        }
        i += 1;
    }
    true
}

/// Counts one pair of rules. All ways of looking products up count the same.
pub fn count_one_candidate(
    map: &ProductMap,
    event: Event,
    position: usize,
    left: &Vec<StateId>,
    right: &Vec<StateId>,
    mode: CountMode,
) -> (t: Tally)
    requires
        left@.len() == right@.len(),
        position < left@.len(),
        left@[position as int] == event.left,
        right@[position as int] == event.right,
    ensures
        t@ == candidate_tally(map@, event, position as int, left@, right@),
{
    let ghost pairs = map@;
    let ghost p = position as int;
    let count: usize = left.len();
    let mut children: Vec<StateId> = Vec::new();
    let mut earlier = false;
    let mut lookups: usize = 0;
    let mut missing = false;
    let mut i: usize = 0;
    while i < count && !missing
        invariant
            i <= count,
            count == left@.len(),
            left@.len() == right@.len(),
            position < count,
            pairs == map@,
            p == position,
            lookups <= i,
            lookups + (if missing {
                0
            } else {
                lookups_from(pairs, event, p, left@, right@, i as int)
            }) == lookups_from(pairs, event, p, left@, right@, 0),
            !missing ==> forall|k: int|
                0 <= k < i ==> #[trigger] child_product(pairs, event, p, left@, right@, k) is Some,
            missing ==> i > 0 && child_product(pairs, event, p, left@, right@, i - 1) is None,
            mode != CountMode::NoAlloc && !missing ==> children@.len() == i,
            mode != CountMode::NoAlloc && !missing ==> forall|k: int|
                0 <= k < i ==> child_product(pairs, event, p, left@, right@, k) == Some(
                    #[trigger] children@[k],
                ),
            earlier ==> exists|k: int|
                0 <= k < i && k < p && #[trigger] child_product(pairs, event, p, left@, right@, k)
                    == Some(event.product),
            !earlier && mode == CountMode::NoAlloc && !missing ==> forall|k: int|
                0 <= k < i && k < p ==> #[trigger] child_product(
                    pairs,
                    event,
                    p,
                    left@,
                    right@,
                    k,
                ) != Some(event.product),
        decreases count - i,
    {
        let found = if i == position && left[i] == event.left && right[i] == event.right {
            Some(event.product)
        } else {
            lookups += 1;
            match mode {
                CountMode::RightLocal => map.get_right_local(left[i], right[i]),
                _ => map.get(left[i], right[i]),
            }
        };
        assert(found == child_product(pairs, event, p, left@, right@, i as int));
        match found {
            Some(product) => {
                if mode == CountMode::NoAlloc {
                    if i < position && product == event.product {
                        earlier = true;
                    }
                } else {
                    children.push(product);
                }
            },
            None => {
                missing = true;
            },
        }
        i += 1;
    }
    let accepted = if missing {
        false
    } else if mode == CountMode::NoAlloc {
        !earlier
    } else {
        first_trigger(&children, position, event.product)
    };
    proof {
        if missing {
            assert(child_product(pairs, event, p, left@, right@, i - 1) is None);
        } else {
            assert(is_trigger(event, p, left@, right@, p));
            if mode != CountMode::NoAlloc {
                assert(child_product(pairs, event, p, left@, right@, p) == Some(children@[p]));
                assert forall|k: int| 0 <= k < p implies (#[trigger] child_product(
                    pairs,
                    event,
                    p,
                    left@,
                    right@,
                    k,
                ) != Some(event.product)) == (children@[k] != event.product) by {
                    assert(child_product(pairs, event, p, left@, right@, k) == Some(children@[k]));
                }
                if !accepted {
                    let k = choose|k: int| 0 <= k < p && #[trigger] children@[k] == event.product;
                    assert(child_product(pairs, event, p, left@, right@, k) == Some(event.product));
                }
            }
        }
        assert(accepted == is_candidate(pairs, event, p, left@, right@));
    }
    Tally {
        calls: 0,
        matches: 0,
        lookups,
        candidates: if accepted {
            1
        } else {
            0
        },
        rejected: if accepted {
            0
        } else {
            1
        },
        peak: 0,
    }
}

} // verus!
