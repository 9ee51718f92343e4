//! Sets of symbols, kept in increasing order.
use crate::ids::Symbol;
use vstd::prelude::*;

verus! {

/// A finite set of symbols.
#[derive(Debug)]
pub struct SymbolSet {
    sorted: Vec<Symbol>,
}

/// Whether the symbols increase strictly.
pub open spec fn increasing(s: Seq<Symbol>) -> bool {
    forall|i: int, j: int| 0 <= i < j < s.len() ==> (#[trigger] s[i]).0 < (#[trigger] s[j]).0
}

impl View for SymbolSet {
    type V = Set<Symbol>;

    closed spec fn view(&self) -> Set<Symbol> {
        Set::new(|f: Symbol| self.sorted@.contains(f))
    }
}

impl SymbolSet {
    #[verifier::type_invariant]
    spec fn inv(&self) -> bool {
        increasing(self.sorted@)
    }

    /// The empty set.
    pub fn new() -> (s: Self)
        ensures
            s@ == Set::<Symbol>::empty(),
    {
        let s = SymbolSet { sorted: Vec::new() };
        assert(s@ =~= Set::<Symbol>::empty());
        s
    }

    /// The first position whose symbol is not below `f`.
    fn position(&self, f: Symbol) -> (p: usize)
        ensures
            p <= self.sorted@.len(),
            forall|i: int| 0 <= i < p ==> (#[trigger] self.sorted@[i]).0 < f.0,
            forall|i: int| p <= i < self.sorted@.len() ==> (#[trigger] self.sorted@[i]).0 >= f.0,
    {
        proof {
            use_type_invariant(self);
        }
        let mut low: usize = 0;
        let mut high: usize = self.sorted.len();
        while low < high
            invariant
                increasing(self.sorted@),
                low <= high <= self.sorted@.len(),
                forall|i: int| 0 <= i < low ==> (#[trigger] self.sorted@[i]).0 < f.0,
                forall|i: int|
                    high <= i < self.sorted@.len() ==> (#[trigger] self.sorted@[i]).0 >= f.0,
            decreases high - low,
        {
            let middle: usize = low + (high - low) / 2;
            if self.sorted[middle].0 < f.0 {
                low = middle + 1;
            } else {
                high = middle;
            }
        }
        low
    }

    /// Whether `f` belongs to the set.
    pub fn contains(&self, f: Symbol) -> (b: bool)
        ensures
            b == self@.contains(f),
    {
        proof {
            use_type_invariant(self);
        }
        let p: usize = self.position(f);
        let found = p < self.sorted.len() && self.sorted[p].0 == f.0;
        proof {
            if found {
                assert(self.sorted@[p as int] == f);
            }
            if self.sorted@.contains(f) {
                let i = choose|i: int| 0 <= i < self.sorted@.len() && self.sorted@[i] == f;
                assert(i >= p);
                if i > p {
                    assert(self.sorted@[p as int].0 < self.sorted@[i].0);
                }
            }
        }
        found
    }

    /// Adds `f` to the set.
    pub fn insert(&mut self, f: Symbol)
        ensures
            final(self)@ == old(self)@.insert(f),
    {
        proof {
            use_type_invariant(&*self);
        }
        let p: usize = self.position(f);
        let mut sorted: Vec<Symbol> = Vec::new();
        let ghost before = self.sorted@;
        if p < self.sorted.len() && self.sorted[p].0 == f.0 {
            proof {
                assert(before[p as int] == f);
                assert(old(self)@.insert(f) =~= old(self)@);
            }
            return ;
        }
        std::mem::swap(&mut sorted, &mut self.sorted);
        sorted.insert(p, f);
        proof {
            assert forall|i: int, j: int| 0 <= i < j < sorted@.len() implies (
            #[trigger] sorted@[i]).0 < (#[trigger] sorted@[j]).0 by {
                if p < before.len() {
                    assert(before[p as int].0 > f.0);
                }
                let a = if i < p { before[i] } else if i == p { f } else { before[i - 1] };
                let b = if j < p { before[j] } else if j == p { f } else { before[j - 1] };
                assert(sorted@[i] == a && sorted@[j] == b);
            }
            assert forall|g: Symbol| #[trigger] sorted@.contains(g) <==> (g == f || before.contains(g)) by {
                assert(sorted@[p as int] == f);
                if before.contains(g) {
                    let i = choose|i: int| 0 <= i < before.len() && before[i] == g;
                    if i < p {
                        assert(sorted@[i] == g);
                    } else {
                        assert(sorted@[i + 1] == g);
                    }
                }
                if sorted@.contains(g) && g != f {
                    let i = choose|i: int| 0 <= i < sorted@.len() && sorted@[i] == g;
                    if i < p {
                        assert(before[i] == g);
                    } else {
                        assert(before[i - 1] == g);
                    }
                }
            }
        }
        let ghost after = sorted@;
        self.sorted = sorted;
        proof {
            assert forall|g: Symbol| #[trigger] self@.contains(g) <==> old(self)@.insert(
                f,
            ).contains(g) by {
                assert(after.contains(g) <==> (g == f || before.contains(g)));
            }
            assert(self@ =~= old(self)@.insert(f));
        }
    }

    /// The number of symbols.
    pub fn len(&self) -> (n: usize)
        ensures
            n == self@.len(),
            self@.finite(),
    {
        proof {
            use_type_invariant(self);
            assert(self.sorted@.no_duplicates());
            self.sorted@.unique_seq_to_set();
            assert(self.sorted@.to_set() =~= self@);
        }
        self.sorted.len()
    }

    /// Whether the set holds no symbol.
    pub fn is_empty(&self) -> (b: bool)
        ensures
            b == (self@ == Set::<Symbol>::empty()),
    {
        proof {
            if self.sorted@.len() == 0 {
                assert(self@ =~= Set::<Symbol>::empty());
            } else {
                assert(self@.contains(self.sorted@[0]));
            }
        }
        self.sorted.len() == 0
    }

    /// The symbols in increasing order.
    pub fn as_slice(&self) -> (s: &[Symbol])
        ensures
            increasing(s@),
            forall|f: Symbol| #[trigger] s@.contains(f) <==> self@.contains(f),
    {
        proof {
            use_type_invariant(self);
        }
        self.sorted.as_slice()
    }

    /// The set of the listed symbols.
    pub fn from_slice(list: &[Symbol]) -> (s: Self)
        ensures
            forall|f: Symbol| #[trigger] s@.contains(f) <==> list@.contains(f),
    {
        let mut s = SymbolSet::new();
        let mut i: usize = 0;
        while i < list.len()
            invariant
                i <= list@.len(),
                forall|f: Symbol| #[trigger]
                    s@.contains(f) <==> list@.take(i as int).contains(f),
            decreases list@.len() - i,
        {
            s.insert(list[i]);
            proof {
                let now = list@.take(i + 1);
                assert(now =~= list@.take(i as int).push(list@[i as int]));
                assert forall|f: Symbol| #[trigger] s@.contains(f) <==> now.contains(f) by {
                    lemma_push_contains(list@.take(i as int), list@[i as int], f);
                }
            }
            i += 1;
        }
        assert(list@.take(i as int) =~= list@);
        s
    }

    /// A copy of the set.
    pub fn duplicate(&self) -> (s: Self)
        ensures
            s@ == self@,
    {
        let s = SymbolSet::from_slice(self.as_slice());
        assert(s@ =~= self@);
        s
    }
}

pub proof fn lemma_push_contains<T>(s: Seq<T>, x: T, y: T)
    ensures
        s.push(x).contains(y) <==> (s.contains(y) || x == y),
{
    let t = s.push(x);
    if s.contains(y) {
        let i = choose|i: int| 0 <= i < s.len() && s[i] == y;
        assert(t[i] == y);
    }
    if x == y {
        assert(t[s.len() as int] == y);
    }
    if t.contains(y) && x != y {
        let i = choose|i: int| 0 <= i < t.len() && t[i] == y;
        assert(s[i] == y);
    }
}

} // verus!
