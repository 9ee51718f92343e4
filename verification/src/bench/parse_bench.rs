//! Comparison of complete-chart parsing strategies: settings and timings.
use crate::text::is_text;
use vstd::prelude::*;

verus! {

/// Why zero iterations are refused.
pub open spec fn no_iterations() -> Seq<char> {
    "ITERATIONS must be greater than zero"@
}

/// Why other strategies are refused.
pub open spec fn no_such_strategy() -> Seq<char> {
    "strategy must be topdown, indexed, or sibling"@
}

/// Whether a strategy with this name is compared.
pub open spec fn known_strategy(name: Seq<char>) -> bool {
    name == "topdown"@ || name == "indexed"@ || name == "sibling"@
}

/// Whether two texts are the same.
fn same(a: &str, b: &str) -> (r: bool)
    ensures
        r == (a@ == b@),
{
    is_text(&a.to_owned(), b)
}

/// Checks the settings of a run: at least one iteration, and a known strategy where
/// one is requested.
pub fn validate(iterations: usize, requested: Option<&str>) -> (r: Result<(), &'static str>)
    ensures
        match r {
            Ok(()) => iterations > 0 && (requested matches Some(name) ==> known_strategy(name@)),
            Err(message) => if iterations == 0 {
                message@ == no_iterations()
            } else {
                message@ == no_such_strategy() && requested is Some && !known_strategy(
                    requested->0@,
                )
            },
        },
{
    if iterations == 0 {
        return Err("ITERATIONS must be greater than zero");
    }
    if let Some(name) = requested {
        if !(same(name, "topdown") || same(name, "indexed") || same(name, "sibling")) {
            return Err("strategy must be topdown, indexed, or sibling");
        }
    }
    Ok(())
}

/// Whether the strategy `name` runs: nothing else was requested.
pub fn runs(name: &str, requested: Option<&str>) -> (r: bool)
    ensures
        r == (requested matches Some(wanted) ==> wanted@ == name@),
{
    match requested {
        Some(wanted) => same(wanted, name),
        None => true,
    }
}

/// Whether the values do not decrease.
pub open spec fn ascending(values: Seq<u128>) -> bool {
    forall|i: int, j: int| 0 <= i <= j < values.len() ==> values[i] <= values[j]
}

/// Inserts a value behind the values that are not greater.
fn insert_ascending(values: &mut Vec<u128>, value: u128)
    requires
        ascending(old(values)@),
    ensures
        ascending(final(values)@),
        final(values)@.to_multiset() =~= old(values)@.to_multiset().insert(value),
        final(values)@.len() == old(values)@.len() + 1,
{
    let mut i: usize = values.len();
    while i > 0 && values[i - 1] > value
        invariant
            i <= values@.len(),
            values@ == old(values)@,
            ascending(values@),
            forall|j: int| i <= j < values@.len() ==> values@[j] > value,
        decreases i,
    {
        i -= 1;
    }
    proof {
        values@.to_multiset_ensures();
        vstd::seq_lib::to_multiset_insert(values@, i as int, value);
    }
    values.insert(i, value);
}

/// Sorts measured times.
pub fn sorted(values: &Vec<u128>) -> (r: Vec<u128>)
    ensures
        ascending(r@),
        r@.len() == values@.len(),
        r@.to_multiset() =~= values@.to_multiset(),
{
    let mut r: Vec<u128> = Vec::new();
    let mut i: usize = 0;
    proof {
        values@.to_multiset_ensures();
        assert(values@.take(0) =~= Seq::<u128>::empty());
        assert(r@ =~= values@.take(0));
    }
    while i < values.len()
        invariant
            i <= values@.len(),
            ascending(r@),
            r@.len() == i,
            r@.to_multiset() =~= values@.take(i as int).to_multiset(),
        decreases values@.len() - i,
    {
        proof {
            values@.take(i as int).to_multiset_ensures();
            assert(values@.take(i + 1) =~= values@.take(i as int).push(values@[i as int]));
        }
        insert_ascending(&mut r, values[i]);
        i += 1;
    }
    assert(values@.take(i as int) =~= values@);
    r
}

/// The median and the 95th percentile of sorted times.
pub fn quantiles(times: &Vec<u128>) -> (r: (u128, u128))
    requires
        0 < times@.len(),
        times@.len() * 95 <= usize::MAX,
        ascending(times@),
    ensures
        r.0 == times@[(times@.len() / 2) as int],
        r.1 == times@[(times@.len() * 95 / 100) as int],
        r.0 <= r.1,
{
    let n: usize = times.len();
    let mut high: usize = n * 95 / 100;
    if high > n - 1 {
        high = n - 1;
    }
    (times[n / 2], times[high])
}

} // verus!
