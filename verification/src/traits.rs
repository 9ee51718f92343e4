//! What an automaton offers to the algorithms of this crate.
use crate::ids::{StateId, Symbol};
use crate::symbol_set::SymbolSet;
use crate::text;
use vstd::prelude::*;

verus! {

/// A value that a word of integers stands for.
pub trait StateKey {
    /// The word that stands for this value.
    spec fn key(&self) -> Seq<u32>;

    /// Writes the word out.
    fn to_key(&self) -> (k: Vec<u32>)
        ensures
            k@ == self.key(),
    ;
}

/// A value that can be the state of an automaton.
pub trait AutomatonState: StateKey + Sized {
    /// The same state once more.
    fn duplicate(&self) -> (q: Self)
        ensures
            q == *self,
    ;

    /// Different states have different words.
    proof fn key_injective(a: Self, b: Self)
        requires
            a.key() == b.key(),
        ensures
            a == b,
    ;
}

impl StateKey for StateId {
    open spec fn key(&self) -> Seq<u32> {
        seq![self.0]
    }

    fn to_key(&self) -> (k: Vec<u32>) {
        let k: Vec<u32> = vec![self.0];
        assert(k@ =~= seq![self.0]);
        k
    }
}

impl AutomatonState for StateId {
    fn duplicate(&self) -> (q: Self) {
        *self
    }

    proof fn key_injective(a: Self, b: Self) {
        assert(seq![a.0][0] == seq![b.0][0]);
    }
}

/// A word with a mark before each of its integers and another at its end, so that it can be
/// told where it ends.
pub open spec fn closed_word(w: Seq<u32>) -> Seq<u32>
    decreases w.len(),
{
    if w.len() == 0 {
        seq![0u32]
    } else {
        seq![1u32, w[0]] + closed_word(w.skip(1))
    }
}

/// Behind a closed word anything may follow.
pub proof fn lemma_closed_word(a: Seq<u32>, x: Seq<u32>, b: Seq<u32>, y: Seq<u32>)
    requires
        closed_word(a) + x == closed_word(b) + y,
    ensures
        a == b,
        x == y,
    decreases a.len(),
{
    let p = closed_word(a) + x;
    let q = closed_word(b) + y;
    assert(p[0] == (if a.len() == 0 { 0u32 } else { 1u32 }));
    assert(q[0] == (if b.len() == 0 { 0u32 } else { 1u32 }));
    if a.len() == 0 {
        assert(p.skip(1) =~= x);
        assert(q.skip(1) =~= y);
        assert(a =~= b);
    } else {
        assert(p[1] == a[0] && q[1] == b[0]);
        assert(p.skip(2) =~= closed_word(a.skip(1)) + x);
        assert(q.skip(2) =~= closed_word(b.skip(1)) + y);
        lemma_closed_word(a.skip(1), x, b.skip(1), y);
        assert(a =~= seq![a[0]] + a.skip(1));
        assert(b =~= seq![b[0]] + b.skip(1));
    }
}

/// Appends a word with its marks.
pub fn append_closed(list: &mut Vec<u32>, w: &Vec<u32>)
    ensures
        final(list)@ == old(list)@ + closed_word(w@),
{
    let ghost start = list@;
    let mut i: usize = 0;
    assert(w@.skip(0) =~= w@);
    while i < w.len()
        invariant
            i <= w@.len(),
            list@ + closed_word(w@.skip(i as int)) == start + closed_word(w@),
        decreases w@.len() - i,
    {
        let ghost rest = w@.skip(i as int);
        let ghost before = list@;
        list.push(1);
        list.push(w[i]);
        proof {
            assert(rest.skip(1) =~= w@.skip(i + 1));
            assert(list@ + closed_word(rest.skip(1)) =~= before + closed_word(rest));
        }
        i += 1;
    }
    let ghost before = list@;
    list.push(0);
    assert(list@ =~= before + closed_word(w@.skip(i as int)));
}

impl<A: AutomatonState, B: AutomatonState> StateKey for (A, B) {
    open spec fn key(&self) -> Seq<u32> {
        closed_word(self.0.key()) + self.1.key()
    }

    fn to_key(&self) -> (k: Vec<u32>) {
        let first = self.0.to_key();
        let mut k: Vec<u32> = Vec::new();
        append_closed(&mut k, &first);
        let mut rest = self.1.to_key();
        k.append(&mut rest);
        assert(k@ =~= self.key());
        k
    }
}

impl<A: AutomatonState, B: AutomatonState> AutomatonState for (A, B) {
    fn duplicate(&self) -> (q: Self) {
        (self.0.duplicate(), self.1.duplicate())
    }

    proof fn key_injective(a: Self, b: Self) {
        lemma_closed_word(a.0.key(), a.1.key(), b.0.key(), b.1.key());
        A::key_injective(a.0, b.0);
        B::key_injective(a.1, b.1);
    }
}

/// The characters of a text as integers.
pub open spec fn text_key(text: Seq<char>) -> Seq<u32> {
    Seq::new(text.len(), |i: int| text[i] as u32)
}

/// Two texts with the same key are the same text.
pub proof fn lemma_text_key_injective(a: Seq<char>, b: Seq<char>)
    requires
        text_key(a) == text_key(b),
    ensures
        a == b,
{
    assert(a.len() == text_key(a).len() && b.len() == text_key(b).len());
    assert forall|i: int| 0 <= i < a.len() implies a[i] == b[i] by {
        assert(text_key(a)[i] == a[i] as u32);
        assert(text_key(b)[i] == b[i] as u32);
        lemma_char_key_injective(a[i], b[i]);
    }
    assert(a =~= b);
}

proof fn lemma_char_key_injective(x: char, y: char)
    requires
        x as u32 == y as u32,
    ensures
        x == y,
{
    assert(x as u32 as int == x as int);
    assert(y as u32 as int == y as int);
}

impl<'a> StateKey for &'a str {
    open spec fn key(&self) -> Seq<u32> {
        text_key(self@)
    }

    fn to_key(&self) -> (k: Vec<u32>) {
        let chars = text::chars_of(self);
        let mut k: Vec<u32> = Vec::new();
        let mut i: usize = 0;
        while i < chars.len()
            invariant
                i <= chars@.len(),
                chars@ == self@,
                k@.len() == i,
                forall|j: int| 0 <= j < i ==> #[trigger] k@[j] == self@[j] as u32,
            decreases chars@.len() - i,
        {
            k.push(chars[i] as u32);
            i += 1;
        }
        assert(k@ =~= text_key(self@));
        assert(self.key() == text_key(self@));
        k
    }
}

impl StateKey for String {
    open spec fn key(&self) -> Seq<u32> {
        text_key(self@)
    }

    fn to_key(&self) -> (k: Vec<u32>) {
        self.as_str().to_key()
    }
}

/// A bottom-up tree automaton: which states a node may get from the states of its
/// children, and which states accept.
pub trait BottomUpTa {
    type State: AutomatonState;

    /// Whether a node labelled `f` over `children` may get state `q`.
    spec fn steps_to(&self, f: Symbol, children: Seq<Self::State>, q: Self::State) -> bool;

    /// Whether a tree whose root has state `q` is accepted.
    spec fn accepts(&self, q: Self::State) -> bool;

    /// The states a node may get, once each.
    fn step(&self, f: Symbol, children: &[Self::State]) -> (r: Vec<Self::State>)
        ensures
            forall|q: Self::State| #[trigger] r@.contains(q) <==> self.steps_to(f, children@, q),
            r@.no_duplicates(),
    ;

    fn is_accepting(&self, q: &Self::State) -> (b: bool)
        ensures
            b == self.accepts(*q),
    ;
}

/// Whether `q` is the only state that a node may get.
pub open spec fn sole_step<A: BottomUpTa>(
    a: &A,
    f: Symbol,
    children: Seq<A::State>,
    q: A::State,
) -> bool {
    forall|r: A::State| #[trigger] a.steps_to(f, children, r) <==> r == q
}

/// An automaton that can report the state of a node when it finds only one.
pub trait DetBottomUpTa: BottomUpTa + Sized {
    /// The state that is reported for a node, if any.
    spec fn det(&self, f: Symbol, children: Seq<Self::State>) -> Option<Self::State>;

    /// A reported state is the only one that the node may get.
    proof fn det_sound(&self, f: Symbol, children: Seq<Self::State>)
        ensures
            self.det(f, children) matches Some(q) ==> sole_step(self, f, children, q),
    ;

    fn step_det(&self, f: Symbol, children: &[Self::State]) -> (r: Option<Self::State>)
        ensures
            r == self.det(f, children@),
    ;
}

/// The child states and the result of one transition.
#[derive(Debug)]
pub struct Transition<S> {
    pub children: Vec<S>,
    pub result: S,
}

impl<S> View for Transition<S> {
    type V = (Seq<S>, S);

    open spec fn view(&self) -> (Seq<S>, S) {
        (self.children@, self.result)
    }
}

/// What a list of transitions holds.
pub open spec fn transitions<S>(list: Seq<Transition<S>>) -> Seq<(Seq<S>, S)> {
    Seq::new(list.len(), |i: int| list[i]@)
}

/// An automaton that finds transitions by one of their children.
pub trait IndexedBottomUpTa: BottomUpTa {
    /// The transitions for `f` with state `q` at child `position`.
    fn step_partial(&self, f: Symbol, position: usize, q: &Self::State) -> (r: Vec<
        Transition<Self::State>,
    >)
        ensures
            forall|children: Seq<Self::State>, result: Self::State| #[trigger]
                transitions(r@).contains((children, result)) <==> (position < children.len()
                    && children[position as int] == *q && self.steps_to(f, children, result)),
    ;
}

/// The symbol and the child states of one transition into a known parent.
#[derive(Debug)]
pub struct Expansion<S> {
    pub symbol: Symbol,
    pub children: Vec<S>,
}

impl<S> View for Expansion<S> {
    type V = (Symbol, Seq<S>);

    open spec fn view(&self) -> (Symbol, Seq<S>) {
        (self.symbol, self.children@)
    }
}

/// What a list of expansions holds.
pub open spec fn expansions<S>(list: Seq<Expansion<S>>) -> Seq<(Symbol, Seq<S>)> {
    Seq::new(list.len(), |i: int| list[i]@)
}

/// An automaton that finds transitions by their result.
pub trait TopDownTa: BottomUpTa {
    /// The transitions into `parent`.
    fn step_topdown(&self, parent: &Self::State) -> (r: Vec<Expansion<Self::State>>)
        ensures
            forall|f: Symbol, children: Seq<Self::State>| #[trigger]
                expansions(r@).contains((f, children)) <==> self.steps_to(f, children, *parent),
    ;

    /// The accepting states, once each.
    fn initial_states(&self) -> (r: Vec<Self::State>)
        ensures
            r@.no_duplicates(),
            forall|q: Self::State| #[trigger] r@.contains(q) <==> self.accepts(q),
    ;
}

/// An automaton whose states can be listed.
pub trait StateUniverse: BottomUpTa {
    /// Whether `q` is a state of this automaton.
    spec fn is_state(&self, q: Self::State) -> bool;

    /// The states, once each.
    fn all_states(&self) -> (r: Vec<Self::State>)
        ensures
            r@.no_duplicates(),
            forall|q: Self::State| #[trigger] r@.contains(q) <==> self.is_state(q),
    ;
}

/// All transitions with the same children and the same result.
#[derive(Debug)]
pub struct CondensedRule<S> {
    pub children: Vec<S>,
    pub symbols: SymbolSet,
    pub result: S,
}

/// Whether a condensed rule stands for the transition of `f` from `children` to `q`.
pub open spec fn condensed_covers<S>(
    rule: CondensedRule<S>,
    f: Symbol,
    children: Seq<S>,
    q: S,
) -> bool {
    rule.children@ == children && rule.result == q && rule.symbols@.contains(f)
}

/// Whether one of the condensed rules stands for the transition.
pub open spec fn some_covers<S>(
    rules: Seq<CondensedRule<S>>,
    f: Symbol,
    children: Seq<S>,
    q: S,
) -> bool {
    exists|k: int| 0 <= k < rules.len() && condensed_covers(#[trigger] rules[k], f, children, q)
}

/// An automaton that lists its transitions grouped by children and result.
pub trait CondensedTa: BottomUpTa {
    /// Whether a transition is listed.
    spec fn lists(&self, f: Symbol, children: Seq<Self::State>, q: Self::State) -> bool;

    /// All listed transitions.
    fn condensed_rules(&self) -> (r: Vec<CondensedRule<Self::State>>)
        ensures
            forall|f: Symbol, children: Seq<Self::State>, q: Self::State| #[trigger]
                some_covers(r@, f, children, q) <==> self.lists(f, children, q),
    ;

    /// The listed transitions without children.
    fn condensed_nullary_rules(&self) -> (r: Vec<CondensedRule<Self::State>>)
        ensures
            forall|f: Symbol, children: Seq<Self::State>, q: Self::State| #[trigger]
                some_covers(r@, f, children, q) <==> (children.len() == 0 && self.lists(
                    f,
                    children,
                    q,
                )),
    ;

    /// The listed transitions with `state` at child `position`.
    fn condensed_rules_by_child(&self, position: usize, state: &Self::State) -> (r: Vec<
        CondensedRule<Self::State>,
    >)
        ensures
            forall|f: Symbol, children: Seq<Self::State>, q: Self::State| #[trigger]
                some_covers(r@, f, children, q) <==> (position < children.len()
                    && children[position as int] == *state && self.lists(f, children, q)),
    ;
}

/// An automaton that lists its grouped transitions by their result.
pub trait CondensedTopDownTa: BottomUpTa {
    /// Whether a transition is listed below its result.
    spec fn expands(&self, f: Symbol, children: Seq<Self::State>, q: Self::State) -> bool;

    /// The listed transitions into `parent`.
    fn condensed_rules_by_parent(&self, parent: &Self::State) -> (r: Vec<
        CondensedRule<Self::State>,
    >)
        ensures
            forall|f: Symbol, children: Seq<Self::State>, q: Self::State| #[trigger]
                some_covers(r@, f, children, q) <==> (q == *parent && self.expands(
                    f,
                    children,
                    q,
                )),
    ;

    /// The accepting states, once each.
    fn condensed_initial_states(&self) -> (r: Vec<Self::State>)
        ensures
            r@.no_duplicates(),
            forall|q: Self::State| #[trigger] r@.contains(q) <==> self.accepts(q),
    ;
}

} // verus!
