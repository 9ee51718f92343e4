//! Finite sets of states that are states themselves.
use crate::traits;
use crate::traits::{append_closed, AutomatonState, StateKey};
use vstd::prelude::*;

verus! {

/// Whether one word comes before another: at the first place where they differ it has the
/// smaller integer, or it ends there.
pub open spec fn word_less(a: Seq<u32>, b: Seq<u32>) -> bool
    decreases a.len(),
{
    if b.len() == 0 {
        false
    } else if a.len() == 0 {
        true
    } else if a[0] != b[0] {
        a[0] < b[0]
    } else {
        word_less(a.skip(1), b.skip(1))
    }
}

/// The order of words is total.
proof fn lemma_word_total(a: Seq<u32>, b: Seq<u32>)
    ensures
        word_less(a, b) || word_less(b, a) || a == b,
        !(word_less(a, b) && word_less(b, a)),
        !word_less(a, a),
    decreases a.len(),
{
    if a.len() == 0 {
        if b.len() == 0 {
            assert(a =~= b);
        }
    } else {
        lemma_word_total(a.skip(1), a.skip(1));
        if b.len() > 0 && a[0] == b[0] {
            lemma_word_total(a.skip(1), b.skip(1));
            if a.skip(1) == b.skip(1) {
                assert(a =~= seq![a[0]] + a.skip(1));
                assert(b =~= seq![b[0]] + b.skip(1));
            }
        }
    }
}

proof fn lemma_word_transitive(a: Seq<u32>, b: Seq<u32>, c: Seq<u32>)
    requires
        word_less(a, b),
        word_less(b, c),
    ensures
        word_less(a, c),
    decreases a.len(),
{
    if a.len() > 0 && a[0] == b[0] && b[0] == c[0] {
        lemma_word_transitive(a.skip(1), b.skip(1), c.skip(1));
    }
}

/// Compares two words.
fn is_word_less(a: &Vec<u32>, b: &Vec<u32>) -> (r: bool)
    ensures
        r == word_less(a@, b@),
{
    let mut i: usize = 0;
    assert(a@.skip(0) =~= a@);
    assert(b@.skip(0) =~= b@);
    while i < a.len() && i < b.len()
        invariant
            i <= a@.len(),
            i <= b@.len(),
            word_less(a@.skip(i as int), b@.skip(i as int)) == word_less(a@, b@),
        decreases a@.len() - i,
    {
        assert(a@.skip(i as int)[0] == a@[i as int]);
        assert(b@.skip(i as int)[0] == b@[i as int]);
        if a[i] != b[i] {
            return a[i] < b[i];
        }
        assert(a@.skip(i as int).skip(1) =~= a@.skip(i + 1));
        assert(b@.skip(i as int).skip(1) =~= b@.skip(i + 1));
        i += 1;
    }
    i < b.len()
}

/// A finite set of states as a chain of its members.
#[derive(Debug)]
pub enum Subset<S> {
    Empty,
    More { first: S, rest: Box<Subset<S>> },
}

impl<S: AutomatonState> Subset<S> {
    /// The members in the order of the chain.
    pub open spec fn list(self) -> Seq<S>
        decreases self,
    {
        match self {
            Subset::Empty => Seq::empty(),
            Subset::More { first, rest } => seq![first] + rest.list(),
        }
    }

    /// The members.
    pub open spec fn set(self) -> Set<S>
        decreases self,
    {
        match self {
            Subset::Empty => Set::empty(),
            Subset::More { first, rest } => rest.set().insert(first),
        }
    }

    /// Whether the words of the members increase along the chain.
    pub open spec fn is_sorted(self) -> bool
        decreases self,
    {
        match self {
            Subset::Empty => true,
            Subset::More { first, rest } => rest.is_sorted() && (*rest matches Subset::More {
                first: second,
                rest: _,
            } ==> word_less(first.key(), second.key())),
        }
    }

    /// The chain with one more member.
    pub open spec fn inserted(self, q: S) -> Self
        decreases self,
    {
        match self {
            Subset::Empty => Subset::More { first: q, rest: Box::new(Subset::Empty) },
            Subset::More { first, rest } => if q == first {
                self
            } else if word_less(q.key(), first.key()) {
                Subset::More { first: q, rest: Box::new(self) }
            } else {
                Subset::More { first, rest: Box::new(rest.inserted(q)) }
            },
        }
    }

    /// The members as a list.
    pub proof fn lemma_list(self)
        ensures
            forall|q: S| #[trigger] self.list().contains(q) <==> self.set().contains(q),
        decreases self,
    {
        if let Subset::More { first, rest } = self {
            rest.lemma_list();
            let all = seq![first] + rest.list();
            assert forall|q: S| #[trigger] all.contains(q) <==> self.set().contains(q) by {
                assert(rest.list().contains(q) <==> rest.set().contains(q));
                if all.contains(q) {
                    let i = choose|i: int| 0 <= i < all.len() && all[i] == q;
                    if i > 0 {
                        assert(rest.list()[i - 1] == q);
                    }
                }
                if rest.list().contains(q) {
                    let i = choose|i: int| 0 <= i < rest.list().len() && rest.list()[i] == q;
                    assert(all[i + 1] == q);
                }
                assert(all[0] == first);
            }
        }
    }

    /// The first member of a sorted chain comes before all others.
    proof fn lemma_first(self)
        requires
            self.is_sorted(),
        ensures
            self matches Subset::More { first, rest } ==> forall|q: S| #[trigger]
                rest.set().contains(q) ==> word_less(first.key(), q.key()),
        decreases self,
    {
        if let Subset::More { first, rest } = self {
            rest.lemma_first();
            if let Subset::More { first: second, rest: others } = *rest {
                assert forall|q: S| #[trigger] rest.set().contains(q) implies word_less(
                    first.key(),
                    q.key(),
                ) by {
                    if q != second {
                        assert(others.set().contains(q));
                        lemma_word_transitive(first.key(), second.key(), q.key());
                    }
                }
            }
        }
    }

    /// A set has one sorted chain.
    pub proof fn lemma_unique(self, other: Self)
        requires
            self.is_sorted(),
            other.is_sorted(),
            self.set() == other.set(),
        ensures
            self == other,
        decreases self,
    {
        self.lemma_first();
        other.lemma_first();
        match (self, other) {
            (Subset::Empty, Subset::Empty) => {},
            (Subset::Empty, Subset::More { first, rest }) => {
                assert(other.set().contains(first));
            },
            (Subset::More { first, rest }, Subset::Empty) => {
                assert(self.set().contains(first));
            },
            (Subset::More { first, rest }, Subset::More { first: start, rest: others }) => {
                assert(other.set().contains(first));
                assert(self.set().contains(start));
                lemma_word_total(first.key(), start.key());
                if first != start {
                    assert(others.set().contains(first));
                    assert(rest.set().contains(start));
                }
                assert(!rest.set().contains(first)) by {
                    lemma_word_total(first.key(), first.key());
                }
                assert(!others.set().contains(start)) by {
                    lemma_word_total(start.key(), start.key());
                }
                assert(rest.set() =~= self.set().remove(first));
                assert(others.set() =~= other.set().remove(start));
                rest.lemma_unique(*others);
            },
        }
    }

    /// Inserting keeps a chain sorted and adds the member.
    pub proof fn lemma_inserted(self, q: S)
        requires
            self.is_sorted(),
        ensures
            self.inserted(q).is_sorted(),
            self.inserted(q).set() == self.set().insert(q),
        decreases self,
    {
        if let Subset::More { first, rest } = self {
            rest.lemma_inserted(q);
            lemma_word_total(q.key(), first.key());
            if q != first && q.key() == first.key() {
                S::key_injective(q, first);
            }
            if let Subset::More { first: second, rest: _ } = *rest {
                lemma_word_total(q.key(), second.key());
            }
        }
        assert(self.inserted(q).set() =~= self.set().insert(q));
    }

    /// Every finite set has a sorted chain.
    pub proof fn lemma_exists(set: Set<S>) -> (r: Self)
        requires
            set.finite(),
        ensures
            r.is_sorted(),
            r.set() == set,
        decreases set.len(),
    {
        if set.len() == 0 {
            assert(set =~= Set::empty());
            Subset::Empty
        } else {
            let q = set.choose();
            let fewer = Self::lemma_exists(set.remove(q));
            fewer.lemma_inserted(q);
            assert(set.remove(q).insert(q) =~= set);
            fewer.inserted(q)
        }
    }

    /// Inserts a member.
    pub fn insert(self, q: S) -> (r: Self)
        ensures
            r == self.inserted(q),
        decreases self,
    {
        match self {
            Subset::Empty => Subset::More { first: q, rest: Box::new(Subset::Empty) },
            Subset::More { first, rest } => {
                let own = q.to_key();
                let key = first.to_key();
                proof {
                    lemma_word_total(own@, key@);
                    if own@ == key@ {
                        S::key_injective(q, first);
                    }
                }
                if is_word_less(&own, &key) {
                    Subset::More { first: q, rest: Box::new(Subset::More { first, rest }) }
                } else if is_word_less(&key, &own) {
                    Subset::More { first, rest: Box::new((*rest).insert(q)) }
                } else {
                    Subset::More { first, rest }
                }
            },
        }
    }

    /// The members in the order of the chain.
    pub fn members(&self) -> (r: Vec<S>)
        ensures
            r@ == self.list(),
    {
        let mut r: Vec<S> = Vec::new();
        self.add_members(&mut r);
        assert(r@ =~= self.list());
        r
    }

    fn add_members(&self, r: &mut Vec<S>)
        ensures
            final(r)@ == old(r)@ + self.list(),
        decreases self,
    {
        match self {
            Subset::Empty => {
                assert(r@ =~= old(r)@ + self.list());
            },
            Subset::More { first, rest } => {
                r.push(first.duplicate());
                rest.add_members(r);
                assert(r@ =~= old(r)@ + self.list());
            },
        }
    }

    /// The number of members of a chain.
    pub fn len(&self) -> (n: usize)
        ensures
            n == self.list().len(),
    {
        self.members().len()
    }

    /// Whether there is no member.
    pub fn is_empty(&self) -> (b: bool)
        ensures
            b == (self.set() == Set::<S>::empty()),
    {
        match self {
            Subset::Empty => true,
            Subset::More { first, rest: _ } => {
                assert(self.set().contains(*first));
                false
            },
        }
    }
}

/// The words of the members, one after the other, each with its end marked.
pub open spec fn chain_word<S: AutomatonState>(s: Subset<S>) -> Seq<u32>
    decreases s,
{
    match s {
        Subset::Empty => Seq::empty(),
        Subset::More { first, rest } => traits::closed_word(first.key()) + chain_word(*rest),
    }
}

fn write_chain<S: AutomatonState>(s: &Subset<S>, w: &mut Vec<u32>)
    ensures
        final(w)@ == old(w)@ + chain_word(*s),
    decreases s,
{
    match s {
        Subset::Empty => {
            assert(w@ =~= old(w)@ + chain_word(*s));
        },
        Subset::More { first, rest } => {
            let key = first.to_key();
            append_closed(w, &key);
            write_chain(rest, w);
            assert(w@ =~= old(w)@ + chain_word(*s));
        },
    }
}

proof fn lemma_chain_word<S: AutomatonState>(a: Subset<S>, b: Subset<S>)
    requires
        chain_word(a) == chain_word(b),
    ensures
        a == b,
    decreases a,
{
    match (a, b) {
        (Subset::Empty, Subset::Empty) => {},
        (Subset::Empty, Subset::More { first, rest }) => {
            assert(traits::closed_word(first.key()).len() > 0);
        },
        (Subset::More { first, rest }, Subset::Empty) => {
            assert(traits::closed_word(first.key()).len() > 0);
        },
        (Subset::More { first, rest }, Subset::More { first: start, rest: others }) => {
            traits::lemma_closed_word(
                first.key(),
                chain_word(*rest),
                start.key(),
                chain_word(*others),
            );
            S::key_injective(first, start);
            lemma_chain_word(*rest, *others);
        },
    }
}

impl<S: AutomatonState> StateKey for Subset<S> {
    open spec fn key(&self) -> Seq<u32> {
        chain_word(*self)
    }

    fn to_key(&self) -> (k: Vec<u32>) {
        let mut k: Vec<u32> = Vec::new();
        write_chain(self, &mut k);
        assert(k@ =~= chain_word(*self));
        k
    }
}

impl<S: AutomatonState> AutomatonState for Subset<S> {
    fn duplicate(&self) -> (q: Self)
        decreases self,
    {
        match self {
            Subset::Empty => Subset::Empty,
            Subset::More { first, rest } => Subset::More {
                first: first.duplicate(),
                rest: Box::new((**rest).duplicate()),
            },
        }
    }

    proof fn key_injective(a: Self, b: Self) {
        lemma_chain_word(a, b);
    }
}

} // verus!
