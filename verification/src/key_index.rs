//! An index from words of integers to lists of numbers.
use crate::ids::{StateId, Symbol};
use crate::tables::KeyTable;
use vstd::prelude::*;

verus! {

/// Lists of numbers found by a word of integers.
#[derive(Debug)]
pub struct KeyIndex {
    table: KeyTable,
    lists: Vec<Vec<usize>>,
}

impl KeyIndex {
    /// Whether every entry names a list of its own.
    pub closed spec fn wf(&self) -> bool {
        &&& forall|k: Seq<u32>| #[trigger]
            self.table@.dom().contains(k) ==> self.table@[k] < self.lists@.len()
        &&& forall|k: Seq<u32>, l: Seq<u32>|
            #![trigger self.table@.dom().contains(k), self.table@.dom().contains(l)]
            self.table@.dom().contains(k) && self.table@.dom().contains(l) && self.table@[k]
                == self.table@[l] ==> k == l
    }

    /// The numbers listed under a key, in the order in which they came.
    pub closed spec fn at(&self, key: Seq<u32>) -> Seq<usize> {
        if self.table@.dom().contains(key) {
            self.lists@[self.table@[key] as int]@
        } else {
            Seq::empty()
        }
    }

    /// An index in which every list is empty.
    pub fn new() -> (index: Self)
        ensures
            index.wf(),
            forall|k: Seq<u32>| #[trigger] index.at(k) == Seq::<usize>::empty(),
    {
        KeyIndex { table: KeyTable::new(), lists: Vec::new() }
    }

    /// The numbers listed under a key.
    pub fn get(&self, key: &[u32]) -> (list: &[usize])
        requires
            self.wf(),
        ensures
            list@ == self.at(key@),
    {
        match self.table.get(key) {
            Some(position) => {
                assert(self.table@.dom().contains(key@));
                self.lists[position].as_slice()
            },
            None => empty_list(),
        }
    }

    /// Adds a number to the list under a key.
    pub fn push(&mut self, key: Vec<u32>, value: usize)
        requires
            old(self).wf(),
        ensures
            final(self).wf(),
            forall|k: Seq<u32>| #[trigger]
                final(self).at(k) == (if k == key@ {
                    old(self).at(k).push(value)
                } else {
                    old(self).at(k)
                }),
    {
        let ghost entries = self.table@;
        let ghost lists_before = self.lists@;
        match self.table.get(key.as_slice()) {
            Some(position) => {
                assert(entries.dom().contains(key@));
                self.lists[position].push(value);
                proof {
                    assert forall|k: Seq<u32>| #[trigger] self.at(k) == (if k == key@ {
                        old(self).at(k).push(value)
                    } else {
                        old(self).at(k)
                    }) by {
                        if entries.dom().contains(k) && k != key@ {
                            assert(entries[k] != entries[key@]);
                        }
                    }
                }
            },
            None => {
                let position: usize = self.lists.len();
                let ghost word = key@;
                self.lists.push(vec![value]);
                self.table.insert(key, position);
                proof {
                    assert(self.lists@[position as int]@ =~= Seq::<usize>::empty().push(value));
                    assert forall|k: Seq<u32>| #[trigger] self.at(k) == (if k == word {
                        old(self).at(k).push(value)
                    } else {
                        old(self).at(k)
                    }) by {
                        if k != word && entries.dom().contains(k) {
                            assert(entries[k] < lists_before.len());
                            assert(self.table@.dom().contains(k));
                        }
                    }
                    assert(self.wf()) by {
                        assert forall|k: Seq<u32>, l: Seq<u32>|
                            #![trigger self.table@.dom().contains(k), self.table@.dom().contains(l)]
                            self.table@.dom().contains(k) && self.table@.dom().contains(l)
                                && self.table@[k] == self.table@[l] implies k == l by {
                            if k != word {
                                assert(entries.dom().contains(k));
                            }
                            if l != word {
                                assert(entries.dom().contains(l));
                            }
                        }
                    }
                }
            },
        }
    }

    /// Adds a number to the list under a key unless it is there already.
    pub fn push_unique(&mut self, key: Vec<u32>, value: usize)
        requires
            old(self).wf(),
        ensures
            final(self).wf(),
            forall|k: Seq<u32>| #[trigger]
                final(self).at(k) == (if k == key@ && !old(self).at(k).contains(value) {
                    old(self).at(k).push(value)
                } else {
                    old(self).at(k)
                }),
    {
        if !list_contains(self.get(key.as_slice()), value) {
            self.push(key, value);
        }
    }
}

fn empty_list() -> (list: &'static [usize])
    ensures
        list@ == Seq::<usize>::empty(),
{
    let list: &'static [usize] = &[];
    assert(list@ =~= Seq::<usize>::empty());
    list
}

/// Whether a number is listed.
pub fn list_contains(list: &[usize], value: usize) -> (b: bool)
    ensures
        b == list@.contains(value),
{
    let mut i: usize = 0;
    while i < list.len()
        invariant
            i <= list@.len(),
            forall|j: int| 0 <= j < i ==> #[trigger] list@[j] != value,
        decreases list@.len() - i,
    {
        if list[i] == value {
            assert(list@[i as int] == value);
            return true;
        }
        i += 1;
    }
    false
}

/// A copy of a slice of states.
pub fn copy_states(states: &[StateId]) -> (v: Vec<StateId>)
    ensures
        v@ == states@,
{
    let mut v: Vec<StateId> = Vec::new();
    let mut i: usize = 0;
    while i < states.len()
        invariant
            i <= states@.len(),
            v@ == states@.take(i as int),
        decreases states@.len() - i,
    {
        v.push(states[i]);
        assert(states@.take(i + 1) =~= states@.take(i as int).push(states@[i as int]));
        i += 1;
    }
    assert(states@.take(i as int) =~= states@);
    v
}

/// Whether two slices hold the same states.
pub fn same_states(a: &[StateId], b: &[StateId]) -> (r: bool)
    ensures
        r == (a@ == b@),
{
    if a.len() != b.len() {
        return false;
    }
    let mut i: usize = 0;
    while i < a.len()
        invariant
            a@.len() == b@.len(),
            i <= a@.len(),
            forall|j: int| 0 <= j < i ==> #[trigger] a@[j] == b@[j],
        decreases a@.len() - i,
    {
        if a[i].0 != b[i].0 {
            assert(a@[i as int] != b@[i as int]);
            return false;
        }
        i += 1;
    }
    assert(a@ =~= b@);
    true
}

/// The numbers of the states.
pub open spec fn state_word(states: Seq<StateId>) -> Seq<u32> {
    Seq::new(states.len(), |i: int| states[i].0)
}

/// The key of a left-hand side: the symbol, then the children.
pub open spec fn left_key(f: Symbol, children: Seq<StateId>) -> Seq<u32> {
    seq![f.0] + state_word(children)
}

/// The key of a transition: its left-hand side, then its result.
pub open spec fn transition_key(f: Symbol, children: Seq<StateId>, q: StateId) -> Seq<u32> {
    left_key(f, children).push(q.0)
}

/// The key of a child occurrence: the symbol, the position and the child.
pub open spec fn child_key(f: Symbol, position: usize, q: StateId) -> Seq<u32> {
    seq![
        f.0,
        (position as u64 / 0x1_0000_0000) as u32,
        (position as u64 % 0x1_0000_0000) as u32,
        q.0,
    ]
}

pub proof fn lemma_state_word_injective(a: Seq<StateId>, b: Seq<StateId>)
    requires
        state_word(a) == state_word(b),
    ensures
        a == b,
{
    assert(a.len() == state_word(a).len() && b.len() == state_word(b).len());
    assert forall|i: int| 0 <= i < a.len() implies a[i] == b[i] by {
        assert(state_word(a)[i] == a[i].0);
        assert(state_word(b)[i] == b[i].0);
    }
    assert(a =~= b);
}

pub proof fn lemma_left_key_injective(
    f: Symbol,
    a: Seq<StateId>,
    g: Symbol,
    b: Seq<StateId>,
)
    requires
        left_key(f, a) == left_key(g, b),
    ensures
        f == g,
        a == b,
{
    assert(left_key(f, a)[0] == f.0);
    assert(left_key(g, b)[0] == g.0);
    assert(left_key(f, a).skip(1) =~= state_word(a));
    assert(left_key(g, b).skip(1) =~= state_word(b));
    lemma_state_word_injective(a, b);
}

pub proof fn lemma_transition_key_injective(
    f: Symbol,
    a: Seq<StateId>,
    p: StateId,
    g: Symbol,
    b: Seq<StateId>,
    q: StateId,
)
    requires
        transition_key(f, a, p) == transition_key(g, b, q),
    ensures
        f == g,
        a == b,
        p == q,
{
    let x = transition_key(f, a, p);
    let y = transition_key(g, b, q);
    assert(x.last() == p.0 && y.last() == q.0);
    assert(x.drop_last() =~= left_key(f, a));
    assert(y.drop_last() =~= left_key(g, b));
    lemma_left_key_injective(f, a, g, b);
}

pub proof fn lemma_child_key_injective(
    f: Symbol,
    i: usize,
    p: StateId,
    g: Symbol,
    j: usize,
    q: StateId,
)
    requires
        child_key(f, i, p) == child_key(g, j, q),
    ensures
        f == g,
        i == j,
        p == q,
{
    let x = child_key(f, i, p);
    let y = child_key(g, j, q);
    assert(x[0] == f.0 && y[0] == g.0);
    assert(x[3] == p.0 && y[3] == q.0);
    assert(x[1] == (i as u64 / 0x1_0000_0000) as u32);
    assert(y[1] == (j as u64 / 0x1_0000_0000) as u32);
    assert(x[2] == (i as u64 % 0x1_0000_0000) as u32);
    assert(y[2] == (j as u64 % 0x1_0000_0000) as u32);
    assert(i as u64 / 0x1_0000_0000 == j as u64 / 0x1_0000_0000);
    assert(i as u64 % 0x1_0000_0000 == j as u64 % 0x1_0000_0000);
}

/// Writes the key of a left-hand side out.
pub fn make_left_key(f: Symbol, children: &[StateId]) -> (k: Vec<u32>)
    ensures
        k@ == left_key(f, children@),
{
    let mut k: Vec<u32> = vec![f.0];
    let mut i: usize = 0;
    assert(k@ =~= left_key(f, children@.take(0)));
    while i < children.len()
        invariant
            i <= children@.len(),
            k@ == left_key(f, children@.take(i as int)),
        decreases children@.len() - i,
    {
        k.push(children[i].0);
        assert(k@ =~= left_key(f, children@.take(i + 1)));
        i += 1;
    }
    assert(children@.take(i as int) =~= children@);
    k
}

/// Writes the key of a transition out.
pub fn make_transition_key(f: Symbol, children: &[StateId], q: StateId) -> (k: Vec<u32>)
    ensures
        k@ == transition_key(f, children@, q),
{
    let mut k = make_left_key(f, children);
    k.push(q.0);
    k
}

/// Writes the key of a child occurrence out.
pub fn make_child_key(f: Symbol, position: usize, q: StateId) -> (k: Vec<u32>)
    ensures
        k@ == child_key(f, position, q),
{
    let high: u32 = (position as u64 / 0x1_0000_0000) as u32;
    let low: u32 = (position as u64 % 0x1_0000_0000) as u32;
    let k: Vec<u32> = vec![f.0, high, low, q.0];
    assert(k@ =~= child_key(f, position, q));
    k
}

} // verus!
