//! Numbers for pairs of states.
use crate::ids::StateId;
use crate::tables::KeyTable;
use vstd::prelude::*;

verus! {

/// The number of a pair, if it has one.
pub open spec fn number_of(pairs: Seq<(StateId, StateId)>, left: StateId, right: StateId) -> Option<
    StateId,
> {
    if pairs.contains((left, right)) {
        Some(StateId(pairs.index_of((left, right)) as u32))
    } else {
        None
    }
}

/// Pairs of a left and a right state, numbered in the order in which they came.
pub struct ProductMap {
    table: KeyTable,
    by_right: Vec<KeyTable>,
    pairs: Vec<(StateId, StateId)>,
}

impl View for ProductMap {
    type V = Seq<(StateId, StateId)>;

    closed spec fn view(&self) -> Seq<(StateId, StateId)> {
        self.pairs@
    }
}

/// The word that stands for a pair.
pub open spec fn pair_word(left: StateId, right: StateId) -> Seq<u32> {
    seq![left.0, right.0]
}

/// The word that stands for the left state of a pair.
pub open spec fn left_word(left: StateId) -> Seq<u32> {
    seq![left.0]
}

/// Whether a table gives every pair its number.
spec fn numbers_pairs(table: Map<Seq<u32>, usize>, pairs: Seq<(StateId, StateId)>) -> bool {
    &&& forall|l: StateId, r: StateId|
        (#[trigger] table.dom().contains(pair_word(l, r))) <==> pairs.contains((l, r))
    &&& forall|i: int|
        0 <= i < pairs.len() ==> table[pair_word((#[trigger] pairs[i]).0, pairs[i].1)] == i
}

/// Whether the tables of the right states give every pair its number.
spec fn numbers_locally(tables: Seq<KeyTable>, pairs: Seq<(StateId, StateId)>) -> bool {
    &&& forall|l: StateId, r: StateId|
        (r.0 < tables.len() && #[trigger] tables[r.0 as int]@.dom().contains(left_word(l)))
            <==> #[trigger] pairs.contains((l, r))
    &&& forall|i: int|
        0 <= i < pairs.len() ==> (#[trigger] pairs[i]).1.0 < tables.len()
            && tables[pairs[i].1.0 as int]@[left_word(pairs[i].0)] == i
}

impl ProductMap {
    #[verifier::type_invariant]
    spec fn wf(&self) -> bool {
        &&& self.pairs@.no_duplicates()
        &&& self.pairs@.len() <= u32::MAX
        &&& numbers_pairs(self.table@, self.pairs@)
        &&& numbers_locally(self.by_right@, self.pairs@)
    }

    /// A map without pairs.
    pub fn new() -> (m: Self)
        ensures
            m@ == Seq::<(StateId, StateId)>::empty(),
    {
        ProductMap { table: KeyTable::new(), by_right: Vec::new(), pairs: Vec::new() }
    }

    /// The pairs in the order in which they came.
    pub fn pairs(&self) -> (r: &Vec<(StateId, StateId)>)
        ensures
            r@ == self@,
            r@.no_duplicates(),
            r@.len() <= u32::MAX,
    {
        proof {
            use_type_invariant(self);
        }
        &self.pairs
    }

    /// The number of a pair.
    pub fn get(&self, left: StateId, right: StateId) -> (r: Option<StateId>)
        ensures
            r == number_of(self@, left, right),
    {
        proof {
            use_type_invariant(self);
        }
        let key: Vec<u32> = vec![left.0, right.0];
        assert(key@ =~= pair_word(left, right));
        match self.table.get(key.as_slice()) {
            Some(i) => {
                proof {
                    lemma_number(self.table@, self.pairs@, left, right);
                }
                Some(StateId(i as u32))
            },
            None => None,
        }
    }

    /// The number of a pair, looked up among the pairs of its right state.
    pub fn get_right_local(&self, left: StateId, right: StateId) -> (r: Option<StateId>)
        ensures
            r == number_of(self@, left, right),
    {
        proof {
            use_type_invariant(self);
        }
        if right.index() >= self.by_right.len() {
            return None;
        }
        let key: Vec<u32> = vec![left.0];
        assert(key@ =~= left_word(left));
        match self.by_right[right.index()].get(key.as_slice()) {
            Some(i) => {
                proof {
                    let pair = (left, right);
                    assert(self.by_right@[right.0 as int]@.dom().contains(left_word(left)));
                    assert(self.pairs@.contains(pair));
                    let k = self.pairs@.index_of(pair);
                    assert(self.pairs@[k] == pair);
                }
                Some(StateId(i as u32))
            },
            None => None,
        }
    }

    /// The number of a pair, which gets a new one if it has none; says whether it is new.
    pub fn get_or_insert(&mut self, left: StateId, right: StateId) -> (r: (StateId, bool))
        requires
            old(self)@.len() < u32::MAX,
            right.0 < StateId::STUCK,
        ensures
            r.1 == !old(self)@.contains((left, right)),
            final(self)@ == (if r.1 {
                old(self)@.push((left, right))
            } else {
                old(self)@
            }),
            number_of(final(self)@, left, right) == Some(r.0),
    {
        if let Some(id) = self.get(left, right) {
            return (id, false);
        }
        let mut own = ProductMap::new();
        std::mem::swap(self, &mut own);
        proof {
            use_type_invariant(&own);
        }
        let ProductMap { mut table, mut by_right, mut pairs } = own;
        let ghost before = pairs@;
        let ghost old_table = table@;
        let id: usize = pairs.len();
        let key: Vec<u32> = vec![left.0, right.0];
        assert(key@ =~= pair_word(left, right));
        table.insert(key, id);
        let place: usize = right.index();
        while by_right.len() <= place
            invariant
                place == right.0,
                right.0 < StateId::STUCK,
                numbers_locally(by_right@, before),
            decreases place + 1 - by_right@.len(),
        {
            let ghost earlier = by_right@;
            by_right.push(KeyTable::new());
            proof {
                lemma_grown(earlier, by_right@, before);
            }
        }
        let ghost earlier = by_right@;
        let local: Vec<u32> = vec![left.0];
        assert(local@ =~= left_word(left));
        let mut own_table = KeyTable::new();
        let placed = &mut by_right[place];
        std::mem::swap(placed, &mut own_table);
        own_table.insert(local, id);
        by_right.set(place, own_table);
        pairs.push((left, right));
        proof {
            lemma_pushed(old_table, table@, before, left, right);
            lemma_pushed_locally(earlier, by_right@, before, left, right);
            let k = pairs@.index_of((left, right));
            assert(pairs@[before.len() as int] == (left, right));
            assert(pairs@.contains((left, right)));
            assert(pairs@[k] == (left, right));
        }
        *self = ProductMap { table, by_right, pairs };
        (StateId(id as u32), true)
    }
}

proof fn lemma_number(
    table: Map<Seq<u32>, usize>,
    pairs: Seq<(StateId, StateId)>,
    left: StateId,
    right: StateId,
)
    requires
        numbers_pairs(table, pairs),
        pairs.contains((left, right)),
    ensures
        table[pair_word(left, right)] == pairs.index_of((left, right)),
{
    let k = pairs.index_of((left, right));
    assert(pairs[k] == (left, right));
}

/// A new table without entries changes nothing.
proof fn lemma_grown(
    before: Seq<KeyTable>,
    after: Seq<KeyTable>,
    pairs: Seq<(StateId, StateId)>,
)
    requires
        numbers_locally(before, pairs),
        after.len() == before.len() + 1,
        forall|i: int| 0 <= i < before.len() ==> #[trigger] after[i] == before[i],
        after.last()@ == Map::<Seq<u32>, usize>::empty(),
    ensures
        numbers_locally(after, pairs),
{
    assert forall|l: StateId, r: StateId|
        (r.0 < after.len() && #[trigger] after[r.0 as int]@.dom().contains(left_word(l)))
            <==> #[trigger] pairs.contains((l, r)) by {
        if r.0 < before.len() {
            assert(after[r.0 as int] == before[r.0 as int]);
            assert(before[r.0 as int]@.dom().contains(left_word(l)) <==> pairs.contains((l, r)));
        } else {
            if pairs.contains((l, r)) {
                let i = choose|i: int| 0 <= i < pairs.len() && pairs[i] == (l, r);
                assert(pairs[i].1.0 < before.len());
            }
            if r.0 == before.len() {
                assert(after[r.0 as int] == after.last());
            }
        }
    }
    assert forall|i: int| 0 <= i < pairs.len() implies (#[trigger] pairs[i]).1.0 < after.len()
        && after[pairs[i].1.0 as int]@[left_word(pairs[i].0)] == i by {
        assert(after[pairs[i].1.0 as int] == before[pairs[i].1.0 as int]);
    }
}

proof fn lemma_pushed(
    before: Map<Seq<u32>, usize>,
    after: Map<Seq<u32>, usize>,
    pairs: Seq<(StateId, StateId)>,
    left: StateId,
    right: StateId,
)
    requires
        numbers_pairs(before, pairs),
        !pairs.contains((left, right)),
        pairs.len() < u32::MAX,
        after == before.insert(pair_word(left, right), pairs.len() as usize),
    ensures
        numbers_pairs(after, pairs.push((left, right))),
        pairs.no_duplicates() ==> pairs.push((left, right)).no_duplicates(),
{
    let now = pairs.push((left, right));
    assert forall|l: StateId, r: StateId|
        (#[trigger] after.dom().contains(pair_word(l, r))) <==> now.contains((l, r)) by {
        let k = pair_word(l, r);
        let own = pair_word(left, right);
        if k == own {
            assert(k[0] == own[0] && k[1] == own[1]);
            assert(now[pairs.len() as int] == (l, r));
        } else {
            assert(before.dom().contains(k) <==> pairs.contains((l, r)));
            if pairs.contains((l, r)) {
                let i = choose|i: int| 0 <= i < pairs.len() && pairs[i] == (l, r);
                assert(now[i] == (l, r));
            }
            if now.contains((l, r)) {
                let i = choose|i: int| 0 <= i < now.len() && now[i] == (l, r);
                if i == pairs.len() {
                    assert(k =~= own);
                } else {
                    assert(pairs[i] == (l, r));
                }
            }
        }
    }
    assert forall|i: int| 0 <= i < now.len() implies after[pair_word(
        (#[trigger] now[i]).0,
        now[i].1,
    )] == i by {
        if i < pairs.len() {
            let k = pair_word(now[i].0, now[i].1);
            let own = pair_word(left, right);
            assert(pairs[i] == now[i]);
            if k == own {
                assert(k[0] == own[0] && k[1] == own[1]);
                assert(pairs.contains((left, right)));
            }
        }
    }
    if pairs.no_duplicates() {
        assert forall|i: int, j: int|
            0 <= i < now.len() && 0 <= j < now.len() && i != j implies now[i] != now[j] by {
            if i == pairs.len() {
                assert(pairs.contains(pairs[j]));
            } else if j == pairs.len() {
                assert(pairs.contains(pairs[i]));
            }
        }
    }
}

proof fn lemma_pushed_locally(
    before: Seq<KeyTable>,
    after: Seq<KeyTable>,
    pairs: Seq<(StateId, StateId)>,
    left: StateId,
    right: StateId,
)
    requires
        numbers_locally(before, pairs),
        !pairs.contains((left, right)),
        pairs.len() < u32::MAX,
        right.0 < before.len(),
        after.len() == before.len(),
        forall|i: int| 0 <= i < before.len() && i != right.0 ==> #[trigger] after[i] == before[i],
        after[right.0 as int]@ == before[right.0 as int]@.insert(
            left_word(left),
            pairs.len() as usize,
        ),
    ensures
        numbers_locally(after, pairs.push((left, right))),
{
    let now = pairs.push((left, right));
    assert forall|l: StateId, r: StateId|
        (r.0 < after.len() && #[trigger] after[r.0 as int]@.dom().contains(left_word(l)))
            <==> #[trigger] now.contains((l, r)) by {
        let k = left_word(l);
        let own = left_word(left);
        assert((r.0 < before.len() && before[r.0 as int]@.dom().contains(k)) <==> pairs.contains(
            (l, r),
        ));
        if pairs.contains((l, r)) {
            let i = choose|i: int| 0 <= i < pairs.len() && pairs[i] == (l, r);
            assert(now[i] == (l, r));
        }
        if now.contains((l, r)) && !pairs.contains((l, r)) {
            let i = choose|i: int| 0 <= i < now.len() && now[i] == (l, r);
            if i < pairs.len() {
                assert(pairs[i] == (l, r));
            }
            assert(k =~= own);
        }
        if k == own {
            assert(k[0] == own[0]);
            assert(now[pairs.len() as int] == (left, right));
        }
        if r.0 < before.len() && r != right {
            assert(after[r.0 as int] == before[r.0 as int]);
        }
    }
    assert forall|i: int| 0 <= i < now.len() implies (#[trigger] now[i]).1.0 < after.len()
        && after[now[i].1.0 as int]@[left_word(now[i].0)] == i by {
        if i < pairs.len() {
            assert(pairs[i] == now[i]);
            let k = left_word(now[i].0);
            let own = left_word(left);
            if now[i].1 == right && k == own {
                assert(k[0] == own[0]);
                assert(pairs.contains((left, right)));
            }
            if now[i].1 != right {
                assert(after[now[i].1.0 as int] == before[now[i].1.0 as int]);
            }
        }
    }
}

} // verus!
