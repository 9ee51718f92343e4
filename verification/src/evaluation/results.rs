//! Putting the results of concurrent workers back in order.
use vstd::prelude::*;

verus! {

/// Whether `i` is the first result that is an error.
pub open spec fn first_error<T, E>(results: Seq<Result<(usize, T), E>>, i: int) -> bool {
    &&& 0 <= i < results.len()
    &&& results[i] is Err
    &&& forall|j: int| 0 <= j < i ==> (#[trigger] results[j]) is Ok
}

/// Whether result `i` is for place `k`.
pub open spec fn is_for<T, E>(results: Seq<Result<(usize, T), E>>, i: int, k: int) -> bool {
    &&& 0 <= i < results.len()
    &&& results[i] matches Ok(found)
    &&& found.0 == k
}

/// Whether no two results are for one place.
pub open spec fn once_each<T, E>(results: Seq<Result<(usize, T), E>>) -> bool {
    forall|i: int, j: int, k: int|
        i != j && #[trigger] is_for(results, i, k) ==> !#[trigger] is_for(results, j, k)
}

/// Whether some result is for place `k`.
pub open spec fn is_covered<T, E>(results: Seq<Result<(usize, T), E>>, k: int) -> bool {
    exists|i: int| #[trigger] is_for(results, i, k)
}

/// Whether no result is an error.
pub open spec fn no_error<T, E>(results: Seq<Result<(usize, T), E>>) -> bool {
    forall|i: int| 0 <= i < results.len() ==> (#[trigger] results[i]) is Ok
}

/// Puts results in the order of their places, or gives the first error that came.
///
/// Results come in any order, each with its place; places are below `count`, and without
/// an error every place has one result.
pub fn in_order<T, E>(count: usize, results: Vec<Result<(usize, T), E>>) -> (r: Result<Vec<T>, E>)
    requires
        forall|i: int|
            0 <= i < results@.len() ==> ((#[trigger] results@[i]) matches Ok(found) ==> found.0
                < count),
        once_each(results@),
        no_error(results@) ==> forall|k: int|
            0 <= k < count ==> #[trigger] is_covered(results@, k),
    ensures
        match r {
            Ok(list) => {
                &&& no_error(results@)
                &&& list@.len() == count
                &&& forall|i: int, k: int| #[trigger]
                    is_for(results@, i, k) ==> list@[k] == results@[i]->Ok_0.1
            },
            Err(e) => exists|i: int|
                #[trigger] first_error(results@, i) && results@[i] == Err::<(usize, T), E>(e),
        },
{
    let ghost all = results@;
    let mut results = results;
    let mut slots: Vec<Option<T>> = Vec::new();
    let mut k: usize = 0;
    while k < count
        invariant
            k <= count,
            slots@.len() == k,
            forall|j: int| 0 <= j < k ==> (#[trigger] slots@[j]) is None,
        decreases count - k,
    {
        slots.push(None);
        k += 1;
    }
    let mut error: Option<E> = None;
    assert(all.take(all.len() as int) =~= all);
    while results.len() > 0
        invariant
            results@.len() <= all.len(),
            results@ == all.take(results@.len() as int),
            slots@.len() == count,
            forall|i: int|
                0 <= i < all.len() ==> ((#[trigger] all[i]) matches Ok(found) ==> found.0 < count),
            once_each(all),
            forall|i: int, k: int|
                results@.len() <= i && #[trigger] is_for(all, i, k) ==> slots@[k] == Some(
                    all[i]->Ok_0.1,
                ),
            match error {
                Some(e) => exists|i: int|
                    results@.len() <= i < all.len() && #[trigger] all[i] == Err::<(usize, T), E>(e)
                        && forall|j: int| results@.len() <= j < i ==> (#[trigger] all[j]) is Ok,
                None => forall|i: int|
                    results@.len() <= i < all.len() ==> (#[trigger] all[i]) is Ok,
            },
        decreases results@.len(),
    {
        let ghost n = results@.len() as int;
        let ghost before = slots@;
        let ghost earlier = error;
        if let Some(result) = results.pop() {
            assert(result == all[n - 1]);
            assert(results@ =~= all.take(n - 1));
            match result {
                Ok((place, value)) => {
                    slots.set(place, Some(value));
                    proof {
                        assert(is_for(all, n - 1, place as int));
                        assert forall|i: int, k: int|
                            n - 1 <= i && #[trigger] is_for(all, i, k) implies slots@[k] == Some(
                            all[i]->Ok_0.1,
                        ) by {
                            if i > n - 1 {
                                if k == place {
                                    assert(!is_for(all, i, place as int));
                                }
                                assert(before[k] == Some(all[i]->Ok_0.1));
                            }
                        }
                        if let Some(e) = earlier {
                            let i = choose|i: int|
                                n <= i < all.len() && #[trigger] all[i] == Err::<(usize, T), E>(e)
                                    && forall|j: int| n <= j < i ==> (#[trigger] all[j]) is Ok;
                            assert(all[i] == Err::<(usize, T), E>(e));
                        }
                    }
                },
                Err(e) => {
                    error = Some(e);
                    assert(all[n - 1] == Err::<(usize, T), E>(e));
                },
            }
        }
    }
    if let Some(e) = error {
        proof {
            let i = choose|i: int|
                0 <= i < all.len() && #[trigger] all[i] == Err::<(usize, T), E>(e) && forall|j: int|
                    0 <= j < i ==> (#[trigger] all[j]) is Ok;
            assert(first_error(all, i));
        }
        return Err(e);
    }
    assert forall|k: int| 0 <= k < count implies (#[trigger] slots@[k]) is Some by {
        assert(no_error(all));
        assert(is_covered(all, k));
        let i = choose|i: int| #[trigger] is_for(all, i, k);
        assert(is_for(all, i, k));
    }
    let ghost filled = slots@;
    let mut backwards: Vec<T> = Vec::new();
    assert(filled.take(count as int) =~= filled);
    while slots.len() > 0
        invariant
            slots@.len() <= count,
            filled.len() == count,
            slots@ == filled.take(slots@.len() as int),
            forall|k: int| 0 <= k < count ==> (#[trigger] filled[k]) is Some,
            backwards@.len() == count - slots@.len(),
            forall|j: int|
                0 <= j < backwards@.len() ==> Some(#[trigger] backwards@[j]) == filled[count - 1
                    - j],
        decreases slots@.len(),
    {
        let ghost n = slots@.len() as int;
        if let Some(slot) = slots.pop() {
            assert(slot == filled[n - 1]);
            assert(slots@ =~= filled.take(n - 1));
            if let Some(value) = slot {
                backwards.push(value);
            }
        }
    }
    let ghost turned = backwards@;
    let mut list: Vec<T> = Vec::new();
    assert(turned.take(count as int) =~= turned);
    while backwards.len() > 0
        invariant
            backwards@.len() <= count,
            turned.len() == count,
            backwards@ == turned.take(backwards@.len() as int),
            list@.len() == count - backwards@.len(),
            forall|j: int|
                0 <= j < list@.len() ==> #[trigger] list@[j] == turned[count - 1 - j],
        decreases backwards@.len(),
    {
        let ghost n = backwards@.len() as int;
        if let Some(value) = backwards.pop() {
            assert(value == turned[n - 1]);
            assert(backwards@ =~= turned.take(n - 1));
            list.push(value);
        }
    }
    proof {
        assert forall|i: int, k: int| #[trigger] is_for(all, i, k) implies list@[k]
            == all[i]->Ok_0.1 by {
            assert(filled[k] == Some(all[i]->Ok_0.1));
            assert(Some(turned[count - 1 - k]) == filled[k]);
        }
    }
    Ok(list)
}

} // verus!
