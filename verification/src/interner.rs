//! Stable numbering of values by dense state identifiers.
use crate::ids::StateId;
use crate::tables::KeyTable;
use crate::traits::StateKey;
use vstd::prelude::*;

verus! {

/// Whether value `i` of the list has the given key.
pub open spec fn keyed<T: StateKey>(list: Seq<T>, i: int, key: Seq<u32>) -> bool {
    0 <= i < list.len() && list[i].key() == key
}

/// Whether some value of the list has the given key.
pub open spec fn known<T: StateKey>(list: Seq<T>, key: Seq<u32>) -> bool {
    exists|i: int| #[trigger] keyed(list, i, key)
}

/// Whether no two values of the list have the same key.
pub open spec fn distinct_keys<T: StateKey>(list: Seq<T>) -> bool {
    forall|i: int, j: int|
        0 <= i < j < list.len() ==> (#[trigger] list[i]).key() != (#[trigger] list[j]).key()
}

/// The identifier of the value with the given key, if there is one.
pub open spec fn id_of<T: StateKey>(list: Seq<T>, key: Seq<u32>) -> Option<StateId> {
    if known(list, key) {
        Some(StateId((choose|i: int| #[trigger] keyed(list, i, key)) as u32))
    } else {
        None
    }
}

/// Bidirectional map between values and dense [`StateId`]s.
///
/// Values are told apart by their keys. Inserting the same value twice returns the
/// same identifier, and identifiers stay the same as long as the interner lives.
/// Its view is the list of the values in the order of their identifiers.
#[derive(Debug)]
pub struct Interner<T: StateKey> {
    forward: KeyTable,
    backward: Vec<T>,
}

impl<T: StateKey> View for Interner<T> {
    type V = Seq<T>;

    closed spec fn view(&self) -> Seq<T> {
        self.backward@
    }
}

impl<T: StateKey> Interner<T> {
    #[verifier::type_invariant]
    spec fn wf(&self) -> bool {
        &&& self.backward@.len() <= u32::MAX
        &&& distinct_keys(self.backward@)
        &&& forall|key: Seq<u32>| #[trigger]
            self.forward@.dom().contains(key) <==> known(self.backward@, key)
        &&& forall|key: Seq<u32>| #[trigger]
            self.forward@.dom().contains(key) ==> keyed(
                self.backward@,
                self.forward@[key] as int,
                key,
            )
    }

    /// An interner without values.
    pub fn new() -> (r: Self)
        ensures
            r@ == Seq::<T>::empty(),
    {
        let r = Interner { forward: KeyTable::new(), backward: Vec::new() };
        assert(r@ =~= Seq::<T>::empty());
        r
    }

    /// The number of distinct values that have been interned.
    pub fn len(&self) -> (n: usize)
        ensures
            n == self@.len(),
            n <= u32::MAX,
    {
        proof {
            use_type_invariant(self);
        }
        self.backward.len()
    }

    /// Whether no values have been interned yet.
    pub fn is_empty(&self) -> (b: bool)
        ensures
            b == (self@.len() == 0),
    {
        self.backward.len() == 0
    }

    /// The value that was given an identifier.
    pub fn resolve(&self, id: StateId) -> (t: &T)
        requires
            id.0 < self@.len(),
        ensures
            *t == self@[id.0 as int],
            id_of(self@, t.key()) == Some(id),
    {
        proof {
            use_type_invariant(self);
            let i = id.0 as int;
            assert(keyed(self@, i, self@[i].key()));
            lemma_id_of(self@, i, self@[i].key());
        }
        &self.backward[id.index()]
    }

    /// Looks up a value without inserting it.
    pub fn get(&self, t: &T) -> (r: Option<StateId>)
        ensures
            r == id_of(self@, t.key()),
            r matches Some(id) ==> keyed(self@, id.0 as int, t.key()),
            r is None ==> !known(self@, t.key()),
    {
        proof {
            use_type_invariant(self);
        }
        let key = t.to_key();
        let found: Option<usize> = self.forward.get(key.as_slice());
        match found {
            Some(i) => {
                proof {
                    assert(self.forward@.dom().contains(t.key()));
                    assert(keyed(self@, i as int, t.key()));
                    lemma_id_of(self@, i as int, t.key());
                }
                Some(StateId(i as u32))
            },
            None => {
                assert(!self.forward@.dom().contains(t.key()));
                None
            },
        }
    }

    /// The identifier of `t`: the one it has, or else the next free one.
    ///
    /// Identifiers are handed out densely from zero on in the order of insertion.
    pub fn intern(&mut self, t: T) -> (id: StateId)
        requires
            known(old(self)@, t.key()) || old(self)@.len() < u32::MAX,
        ensures
            known(old(self)@, t.key()) ==> final(self)@ == old(self)@ && id_of(
                old(self)@,
                t.key(),
            ) == Some(id),
            !known(old(self)@, t.key()) ==> final(self)@ == old(self)@.push(t)
                && id.0 == old(self)@.len(),
            id_of(final(self)@, t.key()) == Some(id),
            keyed(final(self)@, id.0 as int, t.key()),
            id.0 != StateId::STUCK,
    {
        proof {
            use_type_invariant(&*self);
        }
        let found: Option<StateId> = self.get(&t);
        if let Some(id) = found {
            return id;
        }
        let ghost before = self.backward@;
        let ghost table = self.forward@;
        let key = t.to_key();
        let n: usize = self.backward.len();
        let mut held = Interner::new();
        std::mem::swap(self, &mut held);
        let Interner { mut forward, mut backward } = held;
        forward.insert(key, n);
        backward.push(t);
        proof {
            let now = backward@;
            assert(now == before.push(t));
            assert forall|i: int, j: int| 0 <= i < j < now.len() implies (#[trigger] now[i]).key()
                != (#[trigger] now[j]).key() by {
                if j == before.len() {
                    if now[i].key() == now[j].key() {
                        assert(keyed(before, i, t.key()));
                    }
                } else {
                    assert(before[i].key() != before[j].key());
                }
            }
            assert(keyed(now, n as int, t.key()));
            assert forall|k: Seq<u32>| #[trigger] forward@.dom().contains(k) implies keyed(
                now,
                forward@[k] as int,
                k,
            ) by {
                if k != t.key() {
                    assert(table.dom().contains(k));
                    assert(keyed(before, table[k] as int, k));
                }
            }
            assert forall|k: Seq<u32>| known(now, k) implies #[trigger] forward@.dom().contains(
                k,
            ) by {
                let i = choose|i: int| #[trigger] keyed(now, i, k);
                if i < before.len() {
                    assert(keyed(before, i, k));
                    assert(table.dom().contains(k));
                }
            }
            lemma_id_of(now, n as int, t.key());
        }
        *self = Interner { forward, backward };
        StateId(n as u32)
    }
}

proof fn lemma_id_of<T: StateKey>(list: Seq<T>, i: int, key: Seq<u32>)
    requires
        distinct_keys(list),
        keyed(list, i, key),
        list.len() <= u32::MAX,
    ensures
        id_of(list, key) == Some(StateId(i as u32)),
{
    let j = choose|j: int| #[trigger] keyed(list, j, key);
    assert(keyed(list, j, key));
    if j < i {
        assert(list[j].key() != list[i].key());
    }
    if i < j {
        assert(list[i].key() != list[j].key());
    }
}

/// Identifiers are stable: whatever is interned later, a value that has an
/// identifier keeps it, and the identifier keeps its value.
pub proof fn law_identifiers_are_stable<T: StateKey>(earlier: Seq<T>, later: Seq<T>, id: StateId)
    requires
        distinct_keys(later),
        later.len() <= u32::MAX,
        earlier.is_prefix_of(later),
        id.0 < earlier.len(),
    ensures
        later[id.0 as int] == earlier[id.0 as int],
        id_of(earlier, earlier[id.0 as int].key()) == Some(id),
        id_of(later, earlier[id.0 as int].key()) == Some(id),
{
    let i = id.0 as int;
    assert(later[i] == earlier[i]);
    assert forall|a: int, b: int| 0 <= a < b < earlier.len() implies (#[trigger] earlier[a]).key()
        != (#[trigger] earlier[b]).key() by {
        assert(later[a].key() != later[b].key());
    }
    assert(keyed(later, i, earlier[i].key()));
    assert(keyed(earlier, i, earlier[i].key()));
    lemma_id_of(later, i, earlier[i].key());
    lemma_id_of(earlier, i, earlier[i].key());
}

} // verus!
