//! Finding rules by one of their children.
use crate::ids::StateId;
use crate::key_index::KeyIndex;
use vstd::prelude::*;

verus! {

/// The contents of lists of states.
pub open spec fn lists(v: Seq<Vec<StateId>>) -> Seq<Seq<StateId>> {
    Seq::new(v.len(), |i: int| v[i]@)
}

/// The numbers of the lists with `q` in place `p`, in increasing order.
pub open spec fn with_child(all: Seq<Seq<StateId>>, p: usize, q: StateId) -> Seq<usize>
    decreases all.len(),
{
    if all.len() == 0 {
        Seq::empty()
    } else {
        let rest = with_child(all.drop_last(), p, q);
        if p < all.last().len() && all.last()[p as int] == q {
            rest.push((all.len() - 1) as usize)
        } else {
            rest
        }
    }
}

/// The length of the longest list.
pub open spec fn widest(all: Seq<Seq<StateId>>) -> nat
    decreases all.len(),
{
    if all.len() == 0 {
        0
    } else {
        let rest = widest(all.drop_last());
        if all.last().len() > rest {
            all.last().len()
        } else {
            rest
        }
    }
}

/// The places below `n` in which some list has `q`, in increasing order.
pub open spec fn places_below(all: Seq<Seq<StateId>>, q: StateId, n: nat) -> Seq<usize>
    decreases n,
{
    if n == 0 {
        Seq::empty()
    } else {
        let rest = places_below(all, q, (n - 1) as nat);
        if with_child(all, (n - 1) as usize, q).len() > 0 {
            rest.push((n - 1) as usize)
        } else {
            rest
        }
    }
}

/// The places in which some list has `q`, in increasing order.
pub open spec fn places(all: Seq<Seq<StateId>>, q: StateId) -> Seq<usize> {
    places_below(all, q, widest(all))
}

/// The key of a state in a place.
pub open spec fn place_key(p: usize, q: StateId) -> Seq<u32> {
    seq![(p as u64 / 0x1_0000_0000) as u32, (p as u64 % 0x1_0000_0000) as u32, q.0]
}

fn make_place_key(p: usize, q: StateId) -> (k: Vec<u32>)
    ensures
        k@ == place_key(p, q),
{
    let high: u32 = (p as u64 / 0x1_0000_0000) as u32;
    let low: u32 = (p as u64 % 0x1_0000_0000) as u32;
    let k: Vec<u32> = vec![high, low, q.0];
    assert(k@ =~= place_key(p, q));
    k
}

proof fn lemma_place_key(p: usize, q: StateId, o: usize, r: StateId)
    requires
        place_key(p, q) == place_key(o, r),
    ensures
        p == o,
        q == r,
{
    assert(place_key(p, q)[0] == place_key(o, r)[0]);
    assert(place_key(p, q)[1] == place_key(o, r)[1]);
    assert(place_key(p, q)[2] == place_key(o, r)[2]);
}

/// The numbers of lists by the states in their places.
pub struct ChildIndex {
    index: KeyIndex,
    width: usize,
    all: Ghost<Seq<Seq<StateId>>>,
}

impl View for ChildIndex {
    type V = Seq<Seq<StateId>>;

    closed spec fn view(&self) -> Seq<Seq<StateId>> {
        self.all@
    }
}

/// Whether an index finds the lists.
spec fn finds(index: KeyIndex, all: Seq<Seq<StateId>>) -> bool {
    forall|p: usize, q: StateId| index.at(#[trigger] place_key(p, q)) == with_child(all, p, q)
}

impl ChildIndex {
    #[verifier::type_invariant]
    spec fn wf(&self) -> bool {
        &&& self.index.wf()
        &&& finds(self.index, self.all@)
        &&& self.width == widest(self.all@)
    }

    /// Indexes lists of states.
    pub fn build(children: &Vec<Vec<StateId>>) -> (r: Self)
        ensures
            r@ == lists(children@),
    {
        let ghost all = lists(children@);
        let mut index = KeyIndex::new();
        let mut width: usize = 0;
        let mut i: usize = 0;
        assert(all.take(0) =~= Seq::empty());
        while i < children.len()
            invariant
                i <= children@.len(),
                all == lists(children@),
                index.wf(),
                finds(index, all.take(i as int)),
                width == widest(all.take(i as int)),
            decreases children@.len() - i,
        {
            let ghost before = all.take(i as int);
            let ghost now = all.take(i + 1);
            let count: usize = children[i].len();
            proof {
                assert(now.drop_last() =~= before);
                assert(now.last() == children@[i as int]@);
            }
            let mut p: usize = 0;
            while p < count
                invariant
                    i < children@.len(),
                    p <= count,
                    count == children@[i as int]@.len(),
                    now.drop_last() == before,
                    now.last() == children@[i as int]@,
                    now.len() == i + 1,
                    index.wf(),
                    forall|o: usize, q: StateId|
                        index.at(#[trigger] place_key(o, q)) == (if o < p {
                            with_child(now, o, q)
                        } else {
                            with_child(before, o, q)
                        }),
                decreases count - p,
            {
                let q = children[i][p];
                let ghost earlier = index;
                index.push(make_place_key(p, q), i);
                proof {
                    assert forall|o: usize, r: StateId|
                        index.at(#[trigger] place_key(o, r)) == (if o < p + 1 {
                            with_child(now, o, r)
                        } else {
                            with_child(before, o, r)
                        }) by {
                        assert(earlier.at(place_key(o, r)) == (if o < p {
                            with_child(now, o, r)
                        } else {
                            with_child(before, o, r)
                        }));
                        if place_key(o, r) == place_key(p, q) {
                            lemma_place_key(o, r, p, q);
                        }
                    }
                }
                p += 1;
            }
            if count > width {
                width = count;
            }
            i += 1;
        }
        assert(all.take(i as int) =~= all);
        ChildIndex { index, width, all: Ghost(all) }
    }

    /// The numbers of the lists with `q` in place `p`.
    pub fn find(&self, p: usize, q: StateId) -> (r: &[usize])
        ensures
            r@ == with_child(self@, p, q),
    {
        proof {
            use_type_invariant(self);
        }
        let key = make_place_key(p, q);
        self.index.get(key.as_slice())
    }

    /// The places in which some list has `q`.
    pub fn places_of(&self, q: StateId) -> (r: Vec<usize>)
        ensures
            r@ == places(self@, q),
    {
        proof {
            use_type_invariant(self);
        }
        let mut r: Vec<usize> = Vec::new();
        let mut p: usize = 0;
        while p < self.width
            invariant
                p <= self.width,
                r@ == places_below(self@, q, p as nat),
            decreases self.width - p,
        {
            if self.find(p, q).len() > 0 {
                r.push(p);
            }
            p += 1;
        }
        r
    }
}

/// A list is found exactly by the states in its places.
pub proof fn lemma_with_child(all: Seq<Seq<StateId>>, p: usize, q: StateId, i: usize)
    requires
        all.len() <= usize::MAX,
    ensures
        with_child(all, p, q).contains(i) <==> (i < all.len() && p < all[i as int].len()
            && all[i as int][p as int] == q),
    decreases all.len(),
{
    if all.len() > 0 {
        let rest = with_child(all.drop_last(), p, q);
        let found = with_child(all, p, q);
        lemma_with_child(all.drop_last(), p, q, i);
        if i < all.len() - 1 {
            assert(all.drop_last()[i as int] == all[i as int]);
        }
        if rest.contains(i) {
            let k = choose|k: int| 0 <= k < rest.len() && rest[k] == i;
            assert(found[k] == i);
        }
        if found.contains(i) {
            let k = choose|k: int| 0 <= k < found.len() && found[k] == i;
            if k < rest.len() {
                assert(rest[k] == i);
            }
        }
        if p < all.last().len() && all.last()[p as int] == q {
            assert(found[found.len() - 1] == (all.len() - 1) as usize);
        }
    }
}

} // verus!
