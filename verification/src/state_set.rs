//! Sets of states that remember the order in which states came.
use crate::symbol_set;
use crate::tables::KeyTable;
use crate::traits::AutomatonState;
use vstd::prelude::*;

verus! {

/// A finite set of states.
pub struct StateSet<S> {
    states: Vec<S>,
    seen: KeyTable,
}

impl<S: AutomatonState> StateSet<S> {
    /// Whether the table knows exactly the listed states.
    pub closed spec fn wf(&self) -> bool {
        &&& self.states@.no_duplicates()
        &&& forall|i: int|
            0 <= i < self.states@.len() ==> self.seen@.dom().contains(
                (#[trigger] self.states@[i]).key(),
            )
        &&& forall|k: Seq<u32>| #[trigger]
            self.seen@.dom().contains(k) ==> exists|i: int|
                0 <= i < self.states@.len() && (#[trigger] self.states@[i]).key() == k
    }

    /// The states in the order in which they came.
    pub closed spec fn list(&self) -> Seq<S> {
        self.states@
    }

    /// The empty set.
    pub fn new() -> (s: Self)
        ensures
            s.wf(),
            s.list() == Seq::<S>::empty(),
    {
        StateSet { states: Vec::new(), seen: KeyTable::new() }
    }

    /// Whether a state is in the set.
    pub fn contains(&self, q: &S) -> (b: bool)
        requires
            self.wf(),
        ensures
            b == self.list().contains(*q),
    {
        let key = q.to_key();
        let found = self.seen.get(key.as_slice()).is_some();
        proof {
            let word = q.key();
            if found {
                assert(self.seen@.dom().contains(word));
                let i = choose|i: int|
                    0 <= i < self.states@.len() && (#[trigger] self.states@[i]).key() == word;
                S::key_injective(self.states@[i], *q);
            }
            if self.list().contains(*q) {
                let i = choose|i: int| 0 <= i < self.states@.len() && self.states@[i] == *q;
                assert(self.seen@.dom().contains(self.states@[i].key()));
            }
        }
        found
    }

    /// The state that came at the given place.
    pub fn get(&self, i: usize) -> (q: &S)
        requires
            i < self.list().len(),
        ensures
            *q == self.list()[i as int],
    {
        &self.states[i]
    }

    /// The number of states.
    pub fn len(&self) -> (n: usize)
        requires
            self.wf(),
        ensures
            n == self.list().len(),
            self.list().no_duplicates(),
    {
        self.states.len()
    }

    /// Adds a state; reports whether it is new.
    pub fn insert(&mut self, q: S) -> (fresh: bool)
        requires
            old(self).wf(),
        ensures
            final(self).wf(),
            fresh == !old(self).list().contains(q),
            final(self).list() == (if fresh {
                old(self).list().push(q)
            } else {
                old(self).list()
            }),
    {
        let key = q.to_key();
        let ghost word = q.key();
        let ghost before = self.states@;
        let ghost table = self.seen@;
        if self.seen.get(key.as_slice()).is_some() {
            proof {
                assert(table.dom().contains(word));
                let i = choose|i: int| 0 <= i < before.len() && (#[trigger] before[i]).key() == word;
                S::key_injective(before[i], q);
            }
            return false;
        }
        proof {
            if before.contains(q) {
                let i = choose|i: int| 0 <= i < before.len() && before[i] == q;
                assert(table.dom().contains(before[i].key()));
            }
        }
        let position: usize = self.states.len();
        self.seen.insert(key, position);
        self.states.push(q);
        proof {
            let now = self.states@;
            assert forall|a: int, b: int| 0 <= a < now.len() && 0 <= b < now.len() && a
                != b implies now[a] != now[b] by {
                if a == before.len() {
                    assert(before.contains(before[b]));
                } else if b == before.len() {
                    assert(before.contains(before[a]));
                }
            }
            assert forall|i: int| 0 <= i < now.len() implies self.seen@.dom().contains(
                (#[trigger] now[i]).key(),
            ) by {
                if i < before.len() {
                    assert(table.dom().contains(before[i].key()));
                }
            }
            assert forall|k: Seq<u32>| #[trigger] self.seen@.dom().contains(k) implies exists|i: int|
                0 <= i < now.len() && (#[trigger] now[i]).key() == k by {
                if k == word {
                    assert(now[before.len() as int].key() == k);
                } else {
                    assert(table.dom().contains(k));
                    let i = choose|i: int|
                        0 <= i < before.len() && (#[trigger] before[i]).key() == k;
                    assert(now[i].key() == k);
                }
            }
        }
        true
    }

    /// Adds several states.
    pub fn insert_all(&mut self, states: Vec<S>)
        requires
            old(self).wf(),
        ensures
            final(self).wf(),
            forall|q: S| #[trigger]
                final(self).list().contains(q) <==> (old(self).list().contains(q)
                    || states@.contains(q)),
    {
        let ghost before = self.list();
        let mut i: usize = 0;
        assert(states@.take(0) =~= Seq::empty());
        while i < states.len()
            invariant
                i <= states@.len(),
                self.wf(),
                forall|q: S| #[trigger]
                    self.list().contains(q) <==> (before.contains(q) || states@.take(
                        i as int,
                    ).contains(q)),
            decreases states@.len() - i,
        {
            let ghost then = self.list();
            let q = states[i].duplicate();
            let fresh = self.insert(q);
            proof {
                let seen = states@.take(i as int);
                assert(states@.take(i + 1) =~= seen.push(states@[i as int]));
                assert forall|p: S| #[trigger] self.list().contains(p) <==> (before.contains(p)
                    || states@.take(i + 1).contains(p)) by {
                    assert(then.contains(p) <==> (before.contains(p) || seen.contains(p)));
                    symbol_set::lemma_push_contains(seen, states@[i as int], p);
                    symbol_set::lemma_push_contains(then, q, p);
                }
            }
            i += 1;
        }
        assert(states@.take(i as int) =~= states@);
    }

    /// The states in the order in which they came.
    pub fn into_vec(self) -> (v: Vec<S>)
        requires
            self.wf(),
        ensures
            v@ == self.list(),
            v@.no_duplicates(),
    {
        self.states
    }
}

} // verus!
