//! Marks and queues of worklist algorithms.
use std::collections::VecDeque;
use vstd::prelude::*;

verus! {

/// How many marks are still missing.
pub open spec fn unmarked(s: Seq<bool>) -> nat
    decreases s.len(),
{
    if s.len() == 0 {
        0
    } else {
        unmarked(s.drop_last()) + if s.last() {
            0nat
        } else {
            1nat
        }
    }
}

/// Whether exactly the marked nodes are queued or done, and none both or twice.
pub open spec fn frontier_ok(marked: Seq<bool>, work: Seq<usize>, done: Set<usize>) -> bool {
    &&& forall|s: usize|
        s < marked.len() ==> (#[trigger] marked[s as int] <==> (done.contains(s)
            || work.contains(s)))
    &&& work.no_duplicates()
    &&& forall|j: int|
        0 <= j < work.len() ==> (#[trigger] work[j]) < marked.len() && !done.contains(work[j])
    &&& forall|s: usize| #[trigger] done.contains(s) ==> s < marked.len()
}

pub proof fn lemma_unmarked_update(s: Seq<bool>, i: int)
    requires
        0 <= i < s.len(),
    ensures
        unmarked(s.update(i, true)) == unmarked(s) - if s[i] {
            0int
        } else {
            1int
        },
    decreases s.len(),
{
    if i == s.len() - 1 {
        assert(s.update(i, true).drop_last() =~= s.drop_last());
    } else {
        assert(s.update(i, true).drop_last() =~= s.drop_last().update(i, true));
        lemma_unmarked_update(s.drop_last(), i);
    }
}

/// Marks that imply other marks and are equally many are the same marks.
pub proof fn lemma_unmarked_equal(a: Seq<bool>, b: Seq<bool>)
    requires
        a.len() == b.len(),
        forall|i: int| 0 <= i < a.len() && #[trigger] a[i] ==> b[i],
    ensures
        unmarked(b) <= unmarked(a),
        unmarked(b) == unmarked(a) ==> a == b,
    decreases a.len(),
{
    if a.len() > 0 {
        assert forall|i: int| 0 <= i < a.drop_last().len() && #[trigger] a.drop_last()[i] implies b.drop_last()[i] by {
            assert(a[i]);
        }
        lemma_unmarked_equal(a.drop_last(), b.drop_last());
        assert(a[a.len() - 1] ==> b[a.len() - 1]);
        if unmarked(b) == unmarked(a) {
            assert(a =~= a.drop_last().push(a.last()));
            assert(b =~= b.drop_last().push(b.last()));
        }
    } else {
        assert(a =~= b);
    }
}

/// Marking and queueing a node keeps the frontier in order.
pub proof fn lemma_frontier_mark(
    marked: Seq<bool>,
    work: Seq<usize>,
    done: Set<usize>,
    s: usize,
)
    requires
        frontier_ok(marked, work, done),
        s < marked.len(),
    ensures
        frontier_ok(
            marked.update(s as int, true),
            if marked[s as int] {
                work
            } else {
                work.push(s)
            },
            done,
        ),
{
    let now = marked.update(s as int, true);
    if marked[s as int] {
        assert(now =~= marked);
    } else {
        let queue = work.push(s);
        assert(!work.contains(s) && !done.contains(s));
        assert forall|t: usize| t < now.len() implies (#[trigger] now[t as int] <==> (
        done.contains(t) || queue.contains(t))) by {
            if t == s {
                assert(queue[queue.len() - 1] == s);
            } else {
                assert(now[t as int] == marked[t as int]);
                if work.contains(t) {
                    let j = choose|j: int| 0 <= j < work.len() && work[j] == t;
                    assert(queue[j] == t);
                }
                if queue.contains(t) {
                    let j = choose|j: int| 0 <= j < queue.len() && queue[j] == t;
                    assert(work[j] == t);
                }
            }
        }
        assert forall|a: int, b: int| 0 <= a < queue.len() && 0 <= b < queue.len() && a
            != b implies queue[a] != queue[b] by {
            if a == work.len() {
                assert(work.contains(work[b]));
            } else if b == work.len() {
                assert(work.contains(work[a]));
            }
        }
    }
}

/// Taking the first queued node keeps the frontier in order.
pub proof fn lemma_frontier_pop(marked: Seq<bool>, work: Seq<usize>, done: Set<usize>)
    requires
        frontier_ok(marked, work, done),
        work.len() > 0,
    ensures
        frontier_ok(marked, work.skip(1), done.insert(work[0])),
        !done.contains(work[0]),
        work[0] < marked.len(),
{
    let rest = work.skip(1);
    let now = done.insert(work[0]);
    assert forall|t: usize| t < marked.len() implies (#[trigger] marked[t as int] <==> (
    now.contains(t) || rest.contains(t))) by {
        if work.contains(t) && t != work[0] {
            let j = choose|j: int| 0 <= j < work.len() && work[j] == t;
            assert(rest[j - 1] == t);
        }
        if rest.contains(t) {
            let j = choose|j: int| 0 <= j < rest.len() && rest[j] == t;
            assert(work[j + 1] == t);
        }
        assert(work.contains(work[0]));
    }
    assert forall|j: int| 0 <= j < rest.len() implies (#[trigger] rest[j]) < marked.len()
        && !now.contains(rest[j]) by {
        assert(rest[j] == work[j + 1]);
        assert(work[j + 1] != work[0]);
    }
    assert(work[0] < marked.len());
}

/// Marks a node and queues it, unless it was marked before.
pub fn mark(marked: &mut Vec<bool>, work: &mut VecDeque<usize>, s: usize)
    requires
        s < old(marked)@.len(),
    ensures
        final(marked)@ == old(marked)@.update(s as int, true),
        final(work)@ == (if old(marked)@[s as int] {
            old(work)@
        } else {
            old(work)@.push(s)
        }),
{
    if !marked[s] {
        marked.set(s, true);
        work.push_back(s);
    } else {
        assert(marked@ =~= marked@.update(s as int, true));
    }
}

} // verus!
