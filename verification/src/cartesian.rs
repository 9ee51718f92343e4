//! Tuples drawn from pools of values.
use crate::traits::AutomatonState;
use vstd::prelude::*;

verus! {

/// One more value at the end of `head`, in every way `pool` offers.
pub open spec fn extend_one<T>(head: Seq<T>, pool: Seq<T>) -> Seq<Seq<T>> {
    Seq::new(pool.len(), |j: int| head.push(pool[j]))
}

/// One more value at the end of each head, the last value changing fastest.
pub open spec fn extend_all<T>(heads: Seq<Seq<T>>, pool: Seq<T>) -> Seq<Seq<T>>
    decreases heads.len(),
{
    if heads.len() == 0 {
        Seq::empty()
    } else {
        extend_all(heads.drop_last(), pool) + extend_one(heads.last(), pool)
    }
}

/// The tuples with one value of each pool, the last value changing fastest.
pub open spec fn tuples<T>(pools: Seq<Seq<T>>) -> Seq<Seq<T>>
    decreases pools.len(),
{
    if pools.len() == 0 {
        seq![Seq::empty()]
    } else {
        extend_all(tuples(pools.drop_last()), pools.last())
    }
}

/// Whether `t` draws one value of each pool.
pub open spec fn draws<T>(t: Seq<T>, pools: Seq<Seq<T>>) -> bool {
    t.len() == pools.len() && forall|i: int|
        0 <= i < t.len() ==> pools[i].contains(#[trigger] t[i])
}

/// What vectors of values hold.
pub open spec fn contents<T>(pools: Seq<Vec<T>>) -> Seq<Seq<T>> {
    Seq::new(pools.len(), |i: int| pools[i]@)
}

proof fn lemma_extend_all<T>(heads: Seq<Seq<T>>, pool: Seq<T>, t: Seq<T>)
    ensures
        extend_all(heads, pool).contains(t) <==> (t.len() > 0 && heads.contains(t.drop_last())
            && pool.contains(t.last())),
    decreases heads.len(),
{
    let all = extend_all(heads, pool);
    if heads.len() > 0 {
        let front = heads.drop_last();
        let last = heads.last();
        let a = extend_all(front, pool);
        let b = extend_one(last, pool);
        lemma_extend_all(front, pool, t);
        if all.contains(t) {
            let i = choose|i: int| 0 <= i < all.len() && all[i] == t;
            if i < a.len() {
                assert(a[i] == t);
                assert(a.contains(t));
                let h = choose|h: int| 0 <= h < front.len() && front[h] == t.drop_last();
                assert(heads[h] == t.drop_last());
            } else {
                assert(b[i - a.len()] == t);
                assert(t.drop_last() =~= last);
                assert(heads[heads.len() - 1] == t.drop_last());
                assert(t.last() == pool[i - a.len()]);
            }
        }
        if t.len() > 0 && heads.contains(t.drop_last()) && pool.contains(t.last()) {
            let h = choose|h: int| 0 <= h < heads.len() && heads[h] == t.drop_last();
            if h < front.len() {
                assert(front[h] == t.drop_last());
                assert(a.contains(t));
                let i = choose|i: int| 0 <= i < a.len() && a[i] == t;
                assert(all[i] == t);
            } else {
                let j = choose|j: int| 0 <= j < pool.len() && pool[j] == t.last();
                assert(t =~= last.push(pool[j]));
                assert(all[a.len() + j] == t);
            }
        }
    }
}

/// The tuples are exactly those that draw one value of each pool.
pub proof fn lemma_tuples<T>(pools: Seq<Seq<T>>, t: Seq<T>)
    ensures
        tuples(pools).contains(t) <==> draws(t, pools),
    decreases pools.len(),
{
    if pools.len() == 0 {
        if draws(t, pools) {
            assert(t =~= Seq::empty());
            assert(tuples(pools)[0] == t);
        }
        if tuples(pools).contains(t) {
            assert(t == Seq::<T>::empty());
        }
    } else {
        let front = pools.drop_last();
        lemma_extend_all(tuples(front), pools.last(), t);
        if t.len() > 0 {
            lemma_tuples(front, t.drop_last());
            if draws(t, pools) {
                assert forall|i: int| 0 <= i < t.drop_last().len() implies front[i].contains(
                    #[trigger] t.drop_last()[i],
                ) by {
                    assert(pools[i].contains(t[i]));
                }
                assert(pools[t.len() - 1].contains(t[t.len() - 1]));
            }
            if draws(t.drop_last(), front) && pools.last().contains(t.last()) {
                assert forall|i: int| 0 <= i < t.len() implies pools[i].contains(
                    #[trigger] t[i],
                ) by {
                    if i < front.len() {
                        assert(front[i].contains(t.drop_last()[i]));
                    }
                }
            }
        }
    }
}

/// A copy of states.
pub fn duplicate_all<T: AutomatonState>(v: &[T]) -> (c: Vec<T>)
    ensures
        c@ == v@,
{
    let mut c: Vec<T> = Vec::new();
    let mut i: usize = 0;
    while i < v.len()
        invariant
            i <= v@.len(),
            c@ == v@.take(i as int),
        decreases v@.len() - i,
    {
        c.push(v[i].duplicate());
        assert(v@.take(i + 1) =~= v@.take(i as int).push(v@[i as int]));
        i += 1;
    }
    assert(v@.take(i as int) =~= v@);
    c
}

/// Lists the tuples with one value of each pool, the last value changing fastest.
/// There are none when a pool is empty, and one, the empty tuple, without pools.
pub fn cartesian<T: AutomatonState>(pools: &Vec<Vec<T>>) -> (r: Vec<Vec<T>>)
    ensures
        contents(r@) == tuples(contents(pools@)),
{
    let ghost all = contents(pools@);
    let mut heads: Vec<Vec<T>> = vec![Vec::new()];
    let mut p: usize = 0;
    proof {
        assert(all.take(0) =~= Seq::empty());
        assert(heads@[0]@ =~= Seq::<T>::empty());
        assert(contents(heads@) =~= seq![Seq::<T>::empty()]);
    }
    while p < pools.len()
        invariant
            p <= pools@.len(),
            all == contents(pools@),
            contents(heads@) == tuples(all.take(p as int)),
        decreases pools@.len() - p,
    {
        let pool = &pools[p];
        let mut next: Vec<Vec<T>> = Vec::new();
        let mut h: usize = 0;
        let ghost head_list = contents(heads@);
        assert(head_list.take(0) =~= Seq::empty());
        while h < heads.len()
            invariant
                h <= heads@.len(),
                head_list == contents(heads@),
                contents(next@) == extend_all(head_list.take(h as int), pool@),
            decreases heads@.len() - h,
        {
            let ghost before = contents(next@);
            let mut j: usize = 0;
            while j < pool.len()
                invariant
                    h < heads@.len(),
                    j <= pool@.len(),
                    head_list == contents(heads@),
                    contents(next@) == before + extend_one(head_list[h as int], pool@).take(
                        j as int,
                    ),
                decreases pool@.len() - j,
            {
                let ghost then = next@;
                let mut tuple = duplicate_all(heads[h].as_slice());
                tuple.push(pool[j].duplicate());
                next.push(tuple);
                proof {
                    let added = extend_one(head_list[h as int], pool@);
                    assert(next@.last()@ =~= added[j as int]);
                    assert(contents(next@) =~= contents(then).push(next@.last()@));
                    assert(added.take(j + 1) =~= added.take(j as int).push(added[j as int]));
                    assert(contents(next@) =~= before + added.take(j + 1));
                }
                j += 1;
            }
            proof {
                let added = extend_one(head_list[h as int], pool@);
                assert(added.take(j as int) =~= added);
                let now = head_list.take(h + 1);
                assert(now.drop_last() =~= head_list.take(h as int));
                assert(now.last() == head_list[h as int]);
            }
            h += 1;
        }
        proof {
            assert(head_list.take(h as int) =~= head_list);
            let now = all.take(p + 1);
            assert(now.drop_last() =~= all.take(p as int));
            assert(now.last() == pool@);
        }
        heads = next;
        p += 1;
    }
    assert(all.take(p as int) =~= all);
    heads
}

} // verus!
