//! Release counting: how often a node still waits for a predecessor.
//!
//! Two worklist algorithms of the crate share one bookkeeping. Edges lead from a
//! source to a target, every target carries the number of edges whose source has
//! not been processed yet, and processing a source lowers the numbers of its
//! targets. A target is released when its number reaches zero.
use vstd::prelude::*;

verus! {

/// How often `x` occurs in `s`.
pub open spec fn count_eq(s: Seq<usize>, x: usize) -> nat
    decreases s.len(),
{
    if s.len() == 0 {
        0
    } else {
        count_eq(s.drop_last(), x) + if s.last() == x {
            1nat
        } else {
            0nat
        }
    }
}

/// How many edges into `d` start at a node outside `done`.
pub open spec fn pending(edges: Seq<(usize, usize)>, done: Set<usize>, d: usize) -> nat
    decreases edges.len(),
{
    if edges.len() == 0 {
        0
    } else {
        pending(edges.drop_last(), done, d) + if edges.last().1 == d && !done.contains(
            edges.last().0,
        ) {
            1nat
        } else {
            0nat
        }
    }
}

/// The targets of the edges that start at `s`, in edge order.
pub open spec fn targets(edges: Seq<(usize, usize)>, s: usize) -> Seq<usize>
    decreases edges.len(),
{
    if edges.len() == 0 {
        Seq::empty()
    } else if edges.last().0 == s {
        targets(edges.drop_last(), s).push(edges.last().1)
    } else {
        targets(edges.drop_last(), s)
    }
}

/// Whether the target of every edge lies below `n`.
pub open spec fn targets_below(edges: Seq<(usize, usize)>, n: nat) -> bool {
    forall|k: int| 0 <= k < edges.len() ==> (#[trigger] edges[k]).1 < n
}

/// Whether the source of every edge lies below `n`.
pub open spec fn sources_below(edges: Seq<(usize, usize)>, n: nat) -> bool {
    forall|k: int| 0 <= k < edges.len() ==> (#[trigger] edges[k]).0 < n
}

pub proof fn lemma_count_positive(s: Seq<usize>, x: usize)
    ensures
        count_eq(s, x) > 0 <==> s.contains(x),
    decreases s.len(),
{
    if s.len() > 0 {
        lemma_count_positive(s.drop_last(), x);
        let t = s.drop_last();
        if s.contains(x) {
            let k = choose|k: int| 0 <= k < s.len() && s[k] == x;
            if k < s.len() - 1 {
                assert(t[k] == x);
            }
        }
        if t.contains(x) {
            let k = choose|k: int| 0 <= k < t.len() && t[k] == x;
            assert(s[k] == x);
        }
        if s.last() == x {
            assert(s[s.len() - 1] == x);
        }
    }
}

pub proof fn lemma_pending_bounded(edges: Seq<(usize, usize)>, done: Set<usize>, d: usize)
    ensures
        pending(edges, done, d) <= edges.len(),
    decreases edges.len(),
{
    if edges.len() > 0 {
        lemma_pending_bounded(edges.drop_last(), done, d);
    }
}

/// Nothing is pending for `d` exactly when every edge into it starts in `done`.
pub proof fn lemma_pending_zero(edges: Seq<(usize, usize)>, done: Set<usize>, d: usize)
    ensures
        pending(edges, done, d) == 0 <==> (forall|k: int|
            0 <= k < edges.len() && (#[trigger] edges[k]).1 == d ==> done.contains(edges[k].0)),
    decreases edges.len(),
{
    if edges.len() > 0 {
        let rest = edges.drop_last();
        lemma_pending_zero(rest, done, d);
        if pending(edges, done, d) == 0 {
            assert forall|k: int|
                0 <= k < edges.len() && (#[trigger] edges[k]).1 == d implies done.contains(
                edges[k].0,
            ) by {
                if k < edges.len() - 1 {
                    assert(rest[k] == edges[k]);
                }
            }
        } else if forall|k: int|
            0 <= k < edges.len() && (#[trigger] edges[k]).1 == d ==> done.contains(edges[k].0) {
            assert forall|k: int|
                0 <= k < rest.len() && (#[trigger] rest[k]).1 == d implies done.contains(
                rest[k].0,
            ) by {
                assert(rest[k] == edges[k]);
            }
            assert(edges[edges.len() - 1] == edges.last());
        }
    }
}

/// Processing a source lowers what is pending by its number of edges.
pub proof fn lemma_pending_insert(
    edges: Seq<(usize, usize)>,
    done: Set<usize>,
    s: usize,
    d: usize,
)
    requires
        !done.contains(s),
    ensures
        pending(edges, done, d) == pending(edges, done.insert(s), d) + count_eq(
            targets(edges, s),
            d,
        ),
    decreases edges.len(),
{
    if edges.len() > 0 {
        lemma_pending_insert(edges.drop_last(), done, s, d);
        let rest = targets(edges.drop_last(), s);
        if edges.last().0 == s {
            assert(rest.push(edges.last().1).drop_last() =~= rest);
        }
    }
}

pub proof fn lemma_targets_below(edges: Seq<(usize, usize)>, s: usize, n: nat)
    requires
        targets_below(edges, n),
    ensures
        forall|k: int| 0 <= k < targets(edges, s).len() ==> #[trigger] targets(edges, s)[k] < n,
    decreases edges.len(),
{
    if edges.len() > 0 {
        let rest = edges.drop_last();
        assert forall|k: int| 0 <= k < rest.len() implies (#[trigger] rest[k]).1 < n by {
            assert(rest[k] == edges[k]);
        }
        lemma_targets_below(rest, s, n);
        assert(edges[edges.len() - 1].1 < n);
        assert forall|k: int| 0 <= k < targets(edges, s).len() implies #[trigger] targets(
            edges,
            s,
        )[k] < n by {
            if k < targets(rest, s).len() {
                assert(targets(rest, s)[k] < n);
            }
        }
    }
}

/// For every source below `n`, the targets of its edges.
pub fn adjacency(n: usize, edges: &Vec<(usize, usize)>) -> (out: Vec<Vec<usize>>)
    requires
        sources_below(edges@, n as nat),
    ensures
        out@.len() == n,
        forall|s: usize| s < n ==> (#[trigger] out@[s as int])@ == targets(edges@, s),
{
    let mut out: Vec<Vec<usize>> = Vec::new();
    let mut i: usize = 0;
    while i < n
        invariant
            i <= n,
            out@.len() == i,
            forall|s: int| 0 <= s < i ==> (#[trigger] out@[s])@ == Seq::<usize>::empty(),
        decreases n - i,
    {
        out.push(Vec::new());
        i += 1;
    }
    let mut k: usize = 0;
    assert(edges@.take(0) =~= Seq::empty());
    while k < edges.len()
        invariant
            k <= edges@.len(),
            out@.len() == n,
            sources_below(edges@, n as nat),
            forall|s: usize|
                s < n ==> (#[trigger] out@[s as int])@ == targets(edges@.take(k as int), s),
        decreases edges@.len() - k,
    {
        let (source, target) = edges[k];
        let ghost before = out@;
        out[source].push(target);
        proof {
            let now = edges@.take(k + 1);
            assert(now.drop_last() =~= edges@.take(k as int));
            assert(now.last() == edges@[k as int]);
            assert forall|s: usize| s < n implies (#[trigger] out@[s as int])@ == targets(
                now,
                s,
            ) by {
                assert(before[s as int]@ == targets(edges@.take(k as int), s));
            }
        }
        k += 1;
    }
    assert(edges@.take(k as int) =~= edges@);
    out
}

/// For every target below `n`, the number of edges into it.
pub fn in_counts(n: usize, edges: &Vec<(usize, usize)>) -> (counts: Vec<usize>)
    requires
        targets_below(edges@, n as nat),
    ensures
        counts@.len() == n,
        forall|d: usize|
            d < n ==> #[trigger] counts@[d as int] == pending(edges@, Set::<usize>::empty(), d),
{
    let mut counts: Vec<usize> = vec![0; n];
    let mut k: usize = 0;
    assert(edges@.take(0) =~= Seq::empty());
    while k < edges.len()
        invariant
            k <= edges@.len(),
            counts@.len() == n,
            targets_below(edges@, n as nat),
            forall|d: usize|
                d < n ==> #[trigger] counts@[d as int] == pending(
                    edges@.take(k as int),
                    Set::<usize>::empty(),
                    d,
                ),
        decreases edges@.len() - k,
    {
        let target: usize = edges[k].1;
        let ghost now = edges@.take(k + 1);
        let ghost before = counts@;
        proof {
            assert(now.drop_last() =~= edges@.take(k as int));
            assert(now.last() == edges@[k as int]);
            lemma_pending_bounded(edges@.take(k as int), Set::<usize>::empty(), target);
            assert(counts@[target as int] <= k);
        }
        counts[target] = counts[target] + 1;
        proof {
            assert forall|d: usize| d < n implies #[trigger] counts@[d as int] == pending(
                now,
                Set::<usize>::empty(),
                d,
            ) by {
                assert(before[d as int] == pending(
                    edges@.take(k as int),
                    Set::<usize>::empty(),
                    d,
                ));
            }
        }
        k += 1;
    }
    assert(edges@.take(k as int) =~= edges@);
    counts
}

/// Lowers the number of every listed target by its occurrences and returns the
/// targets whose number reached zero, in the order in which that happened.
pub fn discharge(remaining: &mut Vec<usize>, listed: &Vec<usize>) -> (released: Vec<usize>)
    requires
        forall|k: int| 0 <= k < listed@.len() ==> #[trigger] listed@[k] < old(remaining)@.len(),
        forall|d: usize|
            d < old(remaining)@.len() ==> count_eq(listed@, d) <= #[trigger] old(
                remaining,
            )@[d as int],
    ensures
        final(remaining)@.len() == old(remaining)@.len(),
        forall|d: usize|
            d < old(remaining)@.len() ==> #[trigger] final(remaining)@[d as int] == old(
                remaining,
            )@[d as int] - count_eq(listed@, d),
        forall|d: usize| #[trigger]
            released@.contains(d) <==> (d < old(remaining)@.len() && old(remaining)@[d as int] > 0
                && final(remaining)@[d as int] == 0),
        released@.no_duplicates(),
{
    let mut released: Vec<usize> = Vec::new();
    let ghost start = remaining@;
    let mut k: usize = 0;
    while k < listed.len()
        invariant
            k <= listed@.len(),
            remaining@.len() == start.len(),
            forall|j: int| 0 <= j < listed@.len() ==> #[trigger] listed@[j] < start.len(),
            forall|d: usize| d < start.len() ==> count_eq(listed@, d) <= #[trigger] start[d as int],
            forall|d: usize|
                d < start.len() ==> #[trigger] remaining@[d as int] == start[d as int] - count_eq(
                    listed@.take(k as int),
                    d,
                ),
            forall|d: usize| #[trigger]
                released@.contains(d) <==> (d < start.len() && start[d as int] > 0
                    && remaining@[d as int] == 0),
            released@.no_duplicates(),
        decreases listed@.len() - k,
    {
        let target: usize = listed[k];
        let ghost before = remaining@;
        let ghost released_before = released@;
        let ghost now = listed@.take(k + 1);
        proof {
            assert(now.drop_last() =~= listed@.take(k as int));
            assert(now.last() == target);
            lemma_count_prefix(listed@, k + 1, target);
            assert(start[target as int] >= count_eq(listed@, target));
            assert(before[target as int] == start[target as int] - count_eq(
                listed@.take(k as int),
                target,
            ));
            assert(before[target as int] > 0);
            assert(!released_before.contains(target));
        }
        remaining[target] = remaining[target] - 1;
        if remaining[target] == 0 {
            released.push(target);
        }
        proof {
            assert forall|d: usize| d < start.len() implies #[trigger] remaining@[d as int]
                == start[d as int] - count_eq(now, d) by {
                assert(before[d as int] == start[d as int] - count_eq(listed@.take(k as int), d));
            }
            assert forall|d: usize| #[trigger] released@.contains(d) <==> (d < start.len()
                && start[d as int] > 0 && remaining@[d as int] == 0) by {
                assert(released_before.contains(d) <==> (d < start.len() && start[d as int] > 0
                    && before[d as int] == 0));
                if released_before.contains(d) {
                    let j = choose|j: int| 0 <= j < released_before.len() && released_before[j]
                        == d;
                    assert(released@[j] == d);
                }
                if released@.contains(d) && d != target {
                    let j = choose|j: int| 0 <= j < released@.len() && released@[j] == d;
                    assert(released_before[j] == d);
                }
                if remaining@[target as int] == 0 {
                    assert(released@[released@.len() - 1] == target);
                }
            }
        }
        k += 1;
    }
    assert(listed@.take(k as int) =~= listed@);
    released
}

pub proof fn lemma_count_prefix(s: Seq<usize>, k: int, x: usize)
    requires
        0 <= k <= s.len(),
    ensures
        count_eq(s.take(k), x) <= count_eq(s, x),
    decreases s.len(),
{
    if k < s.len() {
        lemma_count_prefix(s.drop_last(), k, x);
        assert(s.drop_last().take(k) =~= s.take(k));
    } else {
        assert(s.take(k) =~= s);
    }
}

} // verus!
