//! Automata seen through a homomorphism.
use crate::apply;
use crate::apply::SymbolTree;
use crate::arena;
use crate::arena::{hom_children, hom_label};
use crate::cartesian;
use crate::cartesian::cartesian as all_tuples;
use crate::cartesian::duplicate_all;
use crate::combinators::groups;
use crate::combinators::groups::Groups;
use crate::combinators::matching;
use crate::combinators::matching::{
    match_complete, same_state, Expanding, ListedRules, RuleSource,
};
use crate::combinators::reach;
use crate::homomorphism;
use crate::homomorphism::{HomLabel, HomModel, Homomorphism, HomomorphismError};
use crate::ids::Symbol;
use crate::recognition;
use crate::state_set::StateSet;
use crate::symbol_set;
use crate::terms;
use crate::terms::Term;
use crate::traits;
use crate::traits::{
    AutomatonState, BottomUpTa, CondensedRule, CondensedTa, CondensedTopDownTa, DetBottomUpTa,
    StateUniverse, TopDownTa,
};
use packed_term_arena::tree::{Tree, TreeArena};
use vstd::prelude::*;

verus! {

/// Nondeleting inverse-homomorphism automaton.
///
/// It accepts a source tree exactly when the wrapped automaton accepts the tree's
/// homomorphic image. States are unchanged: a source subtree gets the states that
/// the wrapped automaton gives to its image.
pub struct InvHom<'h, 'a, A> {
    inner: A,
    hom: &'h Homomorphism<'a>,
}

impl<'h, 'a, A> InvHom<'h, 'a, A> {
    /// The wrapped automaton.
    pub closed spec fn wrapped(&self) -> A {
        self.inner
    }

    /// What the homomorphism holds.
    pub closed spec fn model(&self) -> HomModel {
        self.hom@
    }

    /// Wraps `inner` with the given homomorphism.
    pub fn new(inner: A, hom: &'h Homomorphism<'a>) -> (i: Self)
        ensures
            i.wrapped() == inner,
            i.model() == hom@,
    {
        InvHom { inner, hom }
    }

    /// The wrapped automaton.
    pub fn inner(&self) -> (a: &A)
        ensures
            *a == self.wrapped(),
    {
        &self.inner
    }

    /// The homomorphism that maps source symbols to terms.
    pub fn homomorphism(&self) -> (h: &'h Homomorphism<'a>)
        ensures
            h@ == self.model(),
    {
        self.hom
    }

    /// A number shared by exactly the source symbols with the same image; unmapped
    /// symbols have none.
    pub fn det_group(&self, f: Symbol) -> (r: Option<usize>)
        ensures
            r == (if self.model().maps(f) {
                Some(self.model().ids[f])
            } else {
                None
            }),
    {
        self.hom.term_id(f)
    }
}

/// The states that the term below a node may get.
fn eval_term<A: BottomUpTa>(
    arena: &TreeArena<HomLabel>,
    term: Tree,
    children: &[A::State],
    inner: &A,
) -> (r: Vec<A::State>)
    requires
        arena::children_first(arena::hom_nodes(*arena)),
        arena::tree_number(term) < arena::hom_nodes(*arena).len(),
    ensures
        forall|q: A::State| #[trigger]
            r@.contains(q) <==> reach::reach(
                reach::steps_of(inner),
                terms::term_at(arena::hom_nodes(*arena), arena::tree_number(term)),
                children@,
                q,
            ),
    decreases arena::tree_number(term),
{
    let ghost nodes = arena::hom_nodes(*arena);
    let ghost number = arena::tree_number(term);
    let ghost t = terms::term_at(nodes, number);
    let ghost step = reach::steps_of(inner);
    proof {
        terms::lemma_term_args(nodes, number);
    }
    match hom_label(arena, term) {
        HomLabel::Var(variable) => {
            let mut r: Vec<A::State> = Vec::new();
            if variable < children.len() {
                r.push(children[variable].duplicate());
                assert(r@[0] == children@[variable as int]);
            }
            r
        },
        HomLabel::Symbol(symbol) => {
            let parts = hom_children(arena, term);
            let ghost numbers = nodes[number as int].1;
            let ghost args = terms::terms_at(nodes, numbers);
            let mut pools: Vec<Vec<A::State>> = Vec::new();
            let mut c: usize = 0;
            while c < parts.len()
                invariant
                    c <= parts@.len(),
                    pools@.len() == c,
                    nodes == arena::hom_nodes(*arena),
                    arena::children_first(nodes),
                    number == arena::tree_number(term),
                    number < nodes.len(),
                    numbers == nodes[number as int].1,
                    args == terms::terms_at(nodes, numbers),
                    t == Term::App(symbol, args),
                    t == terms::term_at(nodes, number),
                    arena::tree_numbers(parts@) == numbers,
                    forall|d: int| 0 <= d < numbers.len() ==> #[trigger] numbers[d] < number,
                    step == reach::steps_of(inner),
                    forall|d: int, q: A::State|
                        0 <= d < c ==> (#[trigger] pools@[d]@.contains(q) <==> reach::reach(
                            step,
                            args[d],
                            children@,
                            q,
                        )),
                decreases parts@.len() - c,
            {
                assert(arena::tree_numbers(parts@)[c as int] == arena::tree_number(
                    parts@[c as int],
                ));
                assert(numbers[c as int] < number);
                let states = eval_term(arena, parts[c], children, inner);
                if states.len() == 0 {
                    proof {
                        assert forall|q: A::State| !reach::reach(step, t, children@, q) by {
                            if reach::reach(step, t, children@, q) {
                                let s = reach::lemma_reach_app(step, symbol, args, children@, q);
                                assert(reach::reach(step, args[c as int], children@, s[c as int]));
                                assert(states@.contains(s[c as int]));
                            }
                        }
                    }
                    return Vec::new();
                }
                pools.push(states);
                c += 1;
            }
            let tuples = all_tuples(&pools);
            let ghost all = cartesian::contents(pools@);
            let ghost list = cartesian::contents(tuples@);
            let mut r: Vec<A::State> = Vec::new();
            let mut k: usize = 0;
            while k < tuples.len()
                invariant
                    k <= tuples@.len(),
                    list == cartesian::contents(tuples@),
                    forall|q: A::State| #[trigger]
                        r@.contains(q) <==> exists|j: int|
                            0 <= j < k && inner.steps_to(symbol, #[trigger] list[j], q),
                decreases tuples@.len() - k,
            {
                let ghost before = r@;
                let mut found = inner.step(symbol, tuples[k].as_slice());
                let ghost more = found@;
                r.append(&mut found);
                proof {
                    assert(r@ == before + more);
                    assert forall|q: A::State| #[trigger] r@.contains(q) <==> exists|j: int|
                        0 <= j < k + 1 && inner.steps_to(symbol, #[trigger] list[j], q) by {
                        lemma_concat(before, more, q);
                        assert(more.contains(q) <==> inner.steps_to(symbol, list[k as int], q));
                        assert(before.contains(q) <==> exists|j: int|
                            0 <= j < k && inner.steps_to(symbol, #[trigger] list[j], q));
                    }
                }
                k += 1;
            }
            proof {
                assert forall|q: A::State| #[trigger] r@.contains(q) <==> reach::reach(
                    step,
                    t,
                    children@,
                    q,
                ) by {
                    if r@.contains(q) {
                        let j = choose|j: int|
                            0 <= j < k && inner.steps_to(symbol, #[trigger] list[j], q);
                        assert(cartesian::tuples(all).contains(list[j]));
                        cartesian::lemma_tuples(all, list[j]);
                        assert forall|d: int| 0 <= d < args.len() implies reach::reach(
                            step,
                            #[trigger] args[d],
                            children@,
                            list[j][d],
                        ) by {
                            assert(all[d].contains(list[j][d]));
                            assert(pools@[d]@.contains(list[j][d]));
                        }
                        reach::lemma_app_reach(step, t, children@, list[j], q);
                    }
                    if reach::reach(step, t, children@, q) {
                        let s = reach::lemma_reach_app(step, symbol, args, children@, q);
                        assert(cartesian::draws(s, all)) by {
                            assert forall|d: int| 0 <= d < s.len() implies all[d].contains(
                                #[trigger] s[d],
                            ) by {
                                assert(reach::reach(step, args[d], children@, s[d]));
                                assert(pools@[d]@.contains(s[d]));
                            }
                        }
                        cartesian::lemma_tuples(all, s);
                        let j = choose|j: int| 0 <= j < list.len() && list[j] == s;
                        assert(inner.steps_to(symbol, list[j], q));
                    }
                }
            }
            r
        },
    }
}

proof fn lemma_concat<T>(a: Seq<T>, b: Seq<T>, x: T)
    ensures
        (a + b).contains(x) <==> (a.contains(x) || b.contains(x)),
{
    if (a + b).contains(x) {
        let k = choose|k: int| 0 <= k < (a + b).len() && (a + b)[k] == x;
        if k < a.len() {
            assert(a[k] == x);
        } else {
            assert(b[k - a.len()] == x);
        }
    }
    if a.contains(x) {
        let k = choose|k: int| 0 <= k < a.len() && a[k] == x;
        assert((a + b)[k] == x);
    }
    if b.contains(x) {
        let k = choose|k: int| 0 <= k < b.len() && b[k] == x;
        assert((a + b)[a.len() + k] == x);
    }
}

/// The state that the term below a node gets when every node in it has a reported
/// one.
fn eval_term_det<A: DetBottomUpTa>(
    arena: &TreeArena<HomLabel>,
    term: Tree,
    children: &[A::State],
    inner: &A,
) -> (r: Option<A::State>)
    requires
        arena::children_first(arena::hom_nodes(*arena)),
        arena::tree_number(term) < arena::hom_nodes(*arena).len(),
    ensures
        r == reach::reach_det(
            inner,
            terms::term_at(arena::hom_nodes(*arena), arena::tree_number(term)),
            children@,
        ),
    decreases arena::tree_number(term),
{
    let ghost nodes = arena::hom_nodes(*arena);
    let ghost number = arena::tree_number(term);
    let ghost t = terms::term_at(nodes, number);
    proof {
        terms::lemma_term_args(nodes, number);
    }
    match hom_label(arena, term) {
        HomLabel::Var(variable) => {
            if variable < children.len() {
                Some(children[variable].duplicate())
            } else {
                None
            }
        },
        HomLabel::Symbol(symbol) => {
            let parts = hom_children(arena, term);
            let ghost numbers = nodes[number as int].1;
            let ghost args = terms::terms_at(nodes, numbers);
            let mut states: Vec<A::State> = Vec::new();
            let mut c: usize = 0;
            assert(args.take(0) =~= Seq::empty());
            while c < parts.len()
                invariant
                    c <= parts@.len(),
                    nodes == arena::hom_nodes(*arena),
                    arena::children_first(nodes),
                    number == arena::tree_number(term),
                    number < nodes.len(),
                    numbers == nodes[number as int].1,
                    args == terms::terms_at(nodes, numbers),
                    t == Term::App(symbol, args),
                    t == terms::term_at(nodes, number),
                    arena::tree_numbers(parts@) == numbers,
                    forall|d: int| 0 <= d < numbers.len() ==> #[trigger] numbers[d] < number,
                    reach::reach_det_list(inner, args.take(c as int), children@) == Some(states@),
                decreases parts@.len() - c,
            {
                assert(arena::tree_numbers(parts@)[c as int] == arena::tree_number(
                    parts@[c as int],
                ));
                assert(numbers[c as int] < number);
                proof {
                    let now = args.take(c + 1);
                    assert(now.drop_last() =~= args.take(c as int));
                    assert(now.last() == args[c as int]);
                }
                match eval_term_det(arena, parts[c], children, inner) {
                    Some(q) => {
                        states.push(q);
                    },
                    None => {
                        proof {
                            reach::lemma_det_list_none(inner, args, children@, c + 1);
                        }
                        return None;
                    },
                }
                c += 1;
            }
            assert(args.take(c as int) =~= args);
            inner.step_det(symbol, states.as_slice())
        },
    }
}

impl<'h, 'a, A: BottomUpTa> BottomUpTa for InvHom<'h, 'a, A> {
    type State = A::State;

    open spec fn steps_to(&self, f: Symbol, children: Seq<A::State>, q: A::State) -> bool {
        self.model().maps(f) && reach::reach(
            reach::steps_of(&self.wrapped()),
            self.model().image(f),
            children,
            q,
        )
    }

    open spec fn accepts(&self, q: A::State) -> bool {
        self.wrapped().accepts(q)
    }

    /// The states a node may get, once each.
    fn step(&self, f: Symbol, children: &[A::State]) -> (r: Vec<A::State>)
        ensures
            r@.no_duplicates(),
    {
        proof {
            use_type_invariant(self.hom);
            self.hom.lemma_well_formed();
        }
        let mut seen: StateSet<A::State> = StateSet::new();
        if let Some(term) = self.hom.get(f) {
            let states = eval_term(self.hom.arena(), term, children, &self.inner);
            seen.insert_all(states);
        }
        seen.into_vec()
    }

    fn is_accepting(&self, q: &A::State) -> (b: bool) {
        self.inner.is_accepting(q)
    }
}

impl<'h, 'a, A: DetBottomUpTa> DetBottomUpTa for InvHom<'h, 'a, A> {
    open spec fn det(&self, f: Symbol, children: Seq<A::State>) -> Option<A::State> {
        if self.model().maps(f) {
            reach::reach_det(&self.wrapped(), self.model().image(f), children)
        } else {
            None
        }
    }

    proof fn det_sound(&self, f: Symbol, children: Seq<A::State>) {
        let image = self.model().image(f);
        reach::lemma_reach_det(&self.inner, image, children);
        if let Some(q) = self.det(f, children) {
            assert forall|r: A::State| #[trigger] self.steps_to(f, children, r) <==> r == q by {
                assert(reach::reach(reach::steps_of(&self.inner), image, children, r) <==> r == q);
            }
        }
    }

    fn step_det(&self, f: Symbol, children: &[A::State]) -> (r: Option<A::State>) {
        proof {
            use_type_invariant(self.hom);
            self.hom.lemma_well_formed();
        }
        match self.hom.get(f) {
            Some(term) => eval_term_det(self.hom.arena(), term, children, &self.inner),
            None => None,
        }
    }
}

impl<'h, 'a, A: StateUniverse> StateUniverse for InvHom<'h, 'a, A> {
    open spec fn is_state(&self, q: A::State) -> bool {
        self.wrapped().is_state(q)
    }

    fn all_states(&self) -> (r: Vec<A::State>) {
        self.inner.all_states()
    }
}

/// The listed transitions of an automaton as a relation.
pub open spec fn listed_of<A: CondensedTa>(a: &A) -> spec_fn(
    Symbol,
    Seq<A::State>,
    A::State,
) -> bool {
    |f: Symbol, children: Seq<A::State>, q: A::State| a.lists(f, children, q)
}

/// Whether an image lists a transition. A bare variable takes every state of the
/// wrapped automaton to itself.
pub open spec fn image_lists<A: CondensedTa + StateUniverse>(
    a: &A,
    image: Term,
    arity: usize,
    children: Seq<A::State>,
    q: A::State,
) -> bool {
    &&& children.len() == arity
    &&& reach::reach(listed_of(a), image, children, q)
    &&& image is Var ==> a.is_state(q)
}

/// Which transitions are asked for.
enum Wanted<'q, S> {
    All,
    Nullary,
    Child(usize, &'q S),
}

impl<'q, S: AutomatonState> Wanted<'q, S> {
    spec fn covers(&self, children: Seq<S>) -> bool {
        match self {
            Wanted::All => true,
            Wanted::Nullary => children.len() == 0,
            Wanted::Child(position, state) => *position < children.len()
                && children[*position as int] == **state,
        }
    }

    /// Whether transitions with so many children can be asked for.
    fn fits(&self, arity: usize) -> (b: bool)
        ensures
            !b ==> forall|children: Seq<S>|
                children.len() == arity ==> !#[trigger] self.covers(children),
    {
        match self {
            Wanted::All => true,
            Wanted::Nullary => arity == 0,
            Wanted::Child(position, _) => *position < arity,
        }
    }

    fn wants(&self, children: &Vec<S>) -> (b: bool)
        ensures
            b == self.covers(children@),
    {
        match self {
            Wanted::All => true,
            Wanted::Nullary => children.len() == 0,
            Wanted::Child(position, state) => *position < children.len() && same_state(
                &children[*position],
                *state,
            ),
        }
    }
}

/// The number of source children belongs to the image.
proof fn lemma_image_arity(m: HomModel, t: int, f: Symbol)
    requires
        m.well_formed(),
        0 <= t < m.terms.len(),
        m.labels[t].contains(f),
    ensures
        m.maps(f),
        m.image(f) == m.terms[t],
        m.labels[t].contains(m.labels[t][0]),
        m.maps(m.labels[t][0]),
        m.arities[f] == m.arities[m.labels[t][0]],
        forall|v: usize| #[trigger]
            terms::term_vars(m.terms[t]).contains(v) <==> v < m.arities[f],
{
    let g = m.labels[t][0];
    assert(m.labels[t].len() > 0);
    assert(m.labels[t].contains(g));
    assert(m.maps(f) && m.maps(g));
    let vars = terms::term_vars(m.terms[t]);
    lemma_nondeleting_vars(vars, m.arities[f]);
    lemma_nondeleting_vars(vars, m.arities[g]);
    if m.arities[f] < m.arities[g] {
        assert(vars.contains(m.arities[f]));
    } else if m.arities[g] < m.arities[f] {
        assert(vars.contains(m.arities[g]));
    }
}

/// The variables of an image are those below the arity, once each.
pub proof fn lemma_nondeleting_vars(vars: Seq<usize>, arity: usize)
    requires
        homomorphism::nondeleting(vars, arity),
    ensures
        forall|v: usize| #[trigger] vars.contains(v) <==> v < arity,
        vars.no_duplicates(),
{
    assert forall|v: usize| #[trigger] vars.contains(v) implies v < arity by {
        let j = choose|j: int| 0 <= j < vars.len() && vars[j] == v;
        assert(!homomorphism::faulty(vars, arity, j));
    }
    assert forall|i: int, j: int|
        0 <= i < vars.len() && 0 <= j < vars.len() && i != j implies vars[i] != vars[j] by {
        let a = if i < j { i } else { j };
        let b = if i < j { j } else { i };
        assert(!homomorphism::faulty(vars, arity, b));
        if vars[a] == vars[b] {
            assert(vars.take(b)[a] == vars[b]);
            assert(vars.take(b).contains(vars[b]));
        }
    }
}

impl<'h, 'a, A: CondensedTa + StateUniverse> InvHom<'h, 'a, A> {
    /// The states that image number `t` may get by listed transitions, and others.
    fn candidates(&self, t: usize, rules: &Vec<CondensedRule<A::State>>) -> (r: Vec<A::State>)
        requires
            t < self.model().terms.len(),
            matching::covered(rules@) == listed_of(&self.wrapped()),
        ensures
            r@.no_duplicates(),
            self.model().terms[t as int] is Var ==> forall|q: A::State| #[trigger]
                r@.contains(q) <==> self.wrapped().is_state(q),
            self.model().terms[t as int] is App ==> forall|children: Seq<A::State>, q: A::State|
             #[trigger]
                reach::reach(
                    listed_of(&self.wrapped()),
                    self.model().terms[t as int],
                    children,
                    q,
                ) ==> r@.contains(q),
    {
        proof {
            use_type_invariant(self.hom);
            self.hom.lemma_well_formed();
        }
        let arena = self.hom.arena();
        let term = self.hom.term_by_id(t);
        let ghost nodes = arena::hom_nodes(*arena);
        let ghost image = self.model().terms[t as int];
        proof {
            terms::lemma_term_args(nodes, arena::tree_number(term));
        }
        match hom_label(arena, term) {
            HomLabel::Var(_) => self.inner.all_states(),
            HomLabel::Symbol(symbol) => {
                let mut set: StateSet<A::State> = StateSet::new();
                let mut i: usize = 0;
                while i < rules.len()
                    invariant
                        i <= rules@.len(),
                        set.wf(),
                        forall|k: int|
                            0 <= k < i && (#[trigger] rules@[k]).symbols@.contains(symbol)
                                ==> set.list().contains(rules@[k].result),
                    decreases rules@.len() - i,
                {
                    let ghost before = set.list();
                    if rules[i].symbols.contains(symbol) {
                        let q = rules[i].result.duplicate();
                        let fresh = set.insert(q);
                        proof {
                            assert forall|p: A::State| before.contains(
                                p,
                            ) implies set.list().contains(p) by {
                                symbol_set::lemma_push_contains(before, q, p);
                            }
                            symbol_set::lemma_push_contains(before, q, q);
                        }
                    }
                    i += 1;
                }
                proof {
                    assert forall|children: Seq<A::State>, q: A::State| #[trigger]
                        reach::reach(listed_of(&self.inner), image, children, q) implies
                        set.list().contains(q) by {
                        let s = reach::lemma_reach_app(
                            listed_of(&self.inner),
                            symbol,
                            image->App_1,
                            children,
                            q,
                        );
                        assert((matching::covered(rules@))(symbol, s, q));
                        let k = choose|k: int|
                            0 <= k < rules@.len() && traits::condensed_covers(
                                #[trigger] rules@[k],
                                symbol,
                                s,
                                q,
                            );
                        assert(rules@[k].symbols@.contains(symbol));
                    }
                }
                set.into_vec()
            },
        }
    }

    /// The listed transitions that are asked for, grouped by children and result.
    fn gather(&self, wanted: Wanted<'_, A::State>) -> (r: Vec<CondensedRule<A::State>>)
        ensures
            groups::distinct_groups(r@),
            forall|f: Symbol, children: Seq<A::State>, q: A::State| #[trigger]
                traits::some_covers(r@, f, children, q) <==> (wanted.covers(children)
                    && self.lists(f, children, q)),
    {
        proof {
            use_type_invariant(self.hom);
            self.hom.lemma_well_formed();
        }
        let rules = self.inner.condensed_rules();
        let ghost inner = self.wrapped();
        let ghost m = self.model();
        proof {
            assert(matching::covered(rules@) =~= listed_of(&inner));
        }
        let source = ListedRules { rules: &rules };
        let mut groups: Groups<A::State> = Groups::new();
        let count: usize = self.hom.num_terms();
        let mut t: usize = 0;
        while t < count
            invariant
                t <= count,
                count == m.terms.len(),
                m == self.model(),
                m.well_formed(),
                inner == self.wrapped(),
                arena::children_first(arena::hom_nodes(self.hom.term_arena())),
                self.hom@ == m,
                source.relation() == listed_of(&inner),
                matching::covered(rules@) == listed_of(&inner),
                groups.wf(),
                forall|f: Symbol, children: Seq<A::State>, q: A::State| #[trigger]
                    traits::some_covers(groups.list(), f, children, q) <==> (wanted.covers(children)
                        && m.maps(f) && m.ids[f] < t && image_lists(
                        &inner,
                        m.image(f),
                        m.arities[f],
                        children,
                        q,
                    )),
            decreases count - t,
        {
            let ghost start = groups.list();
            let ghost image = m.terms[t as int];
            let symbols = self.hom.label_set(t);
            assert(m.labels[t as int].len() > 0);
            let first = symbols[0];
            proof {
                assert(m.labels[t as int].contains(first));
                lemma_image_arity(m, t as int, first);
            }
            let mut arity: usize = 0;
            if let Some(n) = self.hom.source_arity(first) {
                arity = n;
            }
            assert(arity == m.arities[first]);
            let ghost mut states_seen: Seq<A::State> = Seq::empty();
            if wanted.fits(arity) {
                let term = self.hom.term_by_id(t);
                let states = self.candidates(t, &rules);
                let mut s: usize = 0;
                assert(states@.take(0) =~= Seq::empty());
                while s < states.len()
                    invariant
                        s <= states@.len(),
                        t < count,
                        count == m.terms.len(),
                        m == self.model(),
                        m.well_formed(),
                        self.hom@ == m,
                        image == m.terms[t as int],
                        symbols@ == m.labels[t as int],
                        first == symbols@[0],
                        symbols@.len() > 0,
                        arity == m.arities[first],
                        arena::children_first(arena::hom_nodes(self.hom.term_arena())),
                        arena::tree_number(term) < arena::hom_nodes(
                            self.hom.term_arena(),
                        ).len(),
                        terms::term_at(
                            arena::hom_nodes(self.hom.term_arena()),
                            arena::tree_number(term),
                        ) == image,
                        forall|v: usize| #[trigger]
                            terms::term_vars(image).contains(v) <==> v < arity,
                        source.relation() == listed_of(&inner),
                        groups.wf(),
                        forall|f: Symbol, children: Seq<A::State>, q: A::State| #[trigger]
                            traits::some_covers(groups.list(), f, children, q) <==> (
                            traits::some_covers(start, f, children, q) || (wanted.covers(children)
                                && symbols@.contains(f) && states@.take(s as int).contains(q)
                                && children.len() == arity && reach::reach(
                                listed_of(&inner),
                                image,
                                children,
                                q,
                            ))),
                    decreases states@.len() - s,
                {
                    let ghost then = groups.list();
                    let state = &states[s];
                    let tuples = match_complete(&source, self.hom.arena(), term, arity, state);
                    let ghost list = cartesian::contents(tuples@);
                    let mut k: usize = 0;
                    assert(list.take(0) =~= Seq::empty());
                    while k < tuples.len()
                        invariant
                            k <= tuples@.len(),
                            list == cartesian::contents(tuples@),
                            groups.wf(),
                            forall|f: Symbol, children: Seq<A::State>, q: A::State| #[trigger]
                                traits::some_covers(groups.list(), f, children, q) <==> (
                                traits::some_covers(then, f, children, q) || (wanted.covers(
                                    children,
                                ) && symbols@.contains(f) && q == *state && list.take(
                                    k as int,
                                ).contains(children))),
                        decreases tuples@.len() - k,
                    {
                        let ghost before = groups.list();
                        let ghost tuple = list[k as int];
                        if wanted.wants(&tuples[k]) {
                            let children = duplicate_all(tuples[k].as_slice());
                            groups.add_symbols(children, state.duplicate(), symbols);
                        }
                        proof {
                            let seen = list.take(k as int);
                            assert(list.take(k + 1) =~= seen.push(tuple));
                            assert forall|f: Symbol, children: Seq<A::State>, q: A::State| #[trigger]
                                traits::some_covers(groups.list(), f, children, q) <==> (
                            traits::some_covers(then, f, children, q) || (wanted.covers(children)
                                && symbols@.contains(f) && q == *state && list.take(
                                k + 1,
                            ).contains(children))) by {
                                symbol_set::lemma_push_contains(seen, tuple, children);
                                assert(traits::some_covers(before, f, children, q) <==> (
                                traits::some_covers(then, f, children, q) || (wanted.covers(
                                    children,
                                ) && symbols@.contains(f) && q == *state && seen.contains(
                                    children,
                                ))));
                            }
                        }
                        k += 1;
                    }
                    proof {
                        assert(list.take(k as int) =~= list);
                        let seen = states@.take(s as int);
                        assert(states@.take(s + 1) =~= seen.push(*state));
                        assert forall|f: Symbol, children: Seq<A::State>, q: A::State| #[trigger]
                            traits::some_covers(groups.list(), f, children, q) <==> (
                        traits::some_covers(start, f, children, q) || (wanted.covers(children)
                            && symbols@.contains(f) && states@.take(s + 1).contains(q)
                            && children.len() == arity && reach::reach(
                            listed_of(&inner),
                            image,
                            children,
                            q,
                        ))) by {
                            symbol_set::lemma_push_contains(seen, *state, q);
                            assert(list.contains(children) <==> (children.len() == arity
                                && reach::reach(listed_of(&inner), image, children, *state)));
                            assert(traits::some_covers(then, f, children, q) <==> (
                            traits::some_covers(start, f, children, q) || (wanted.covers(children)
                                && symbols@.contains(f) && seen.contains(q) && children.len()
                                == arity && reach::reach(
                                listed_of(&inner),
                                image,
                                children,
                                q,
                            ))));
                        }
                    }
                    s += 1;
                }
                assert(states@.take(s as int) =~= states@);
                proof {
                    states_seen = states@;
                }
            }
            proof {
                assert forall|f: Symbol, children: Seq<A::State>, q: A::State| #[trigger]
                    traits::some_covers(groups.list(), f, children, q) <==> (wanted.covers(children)
                    && m.maps(f) && m.ids[f] < t + 1 && image_lists(
                    &inner,
                    m.image(f),
                    m.arities[f],
                    children,
                    q,
                )) by {
                    assert(m.labels[t as int].contains(f) <==> (m.maps(f) && m.ids[f] == t));
                    assert(traits::some_covers(start, f, children, q) <==> (wanted.covers(children)
                        && m.maps(f) && m.ids[f] < t && image_lists(
                        &inner,
                        m.image(f),
                        m.arities[f],
                        children,
                        q,
                    )));
                    if symbols@.contains(f) {
                        lemma_image_arity(m, t as int, f);
                        if reach::reach(listed_of(&inner), image, children, q) {
                            assert(image is App || image is Var);
                        }
                    }
                }
            }
            t += 1;
        }
        let r = groups.into_rules();
        proof {
            assert forall|f: Symbol, children: Seq<A::State>, q: A::State| #[trigger]
                traits::some_covers(r@, f, children, q) <==> (wanted.covers(children)
                && self.lists(f, children, q)) by {
                assert(m.maps(f) ==> m.ids[f] < m.terms.len());
            }
        }
        r
    }
}

impl<'h, 'a, A: CondensedTa + StateUniverse> CondensedTa for InvHom<'h, 'a, A> {
    open spec fn lists(&self, f: Symbol, children: Seq<A::State>, q: A::State) -> bool {
        self.model().maps(f) && image_lists(
            &self.wrapped(),
            self.model().image(f),
            self.model().arities[f],
            children,
            q,
        )
    }

    fn condensed_rules(&self) -> (r: Vec<CondensedRule<A::State>>)
        ensures
            groups::distinct_groups(r@),
    {
        self.gather(Wanted::All)
    }

    fn condensed_nullary_rules(&self) -> (r: Vec<CondensedRule<A::State>>) {
        self.gather(Wanted::Nullary)
    }

    fn condensed_rules_by_child(&self, position: usize, state: &A::State) -> (r: Vec<
        CondensedRule<A::State>,
    >) {
        self.gather(Wanted::Child(position, state))
    }
}

impl<'h, 'a, A: TopDownTa> CondensedTopDownTa for InvHom<'h, 'a, A> {
    open spec fn expands(&self, f: Symbol, children: Seq<A::State>, q: A::State) -> bool {
        self.model().maps(f) && children.len() == self.model().arities[f] && self.steps_to(
            f,
            children,
            q,
        )
    }

    fn condensed_rules_by_parent(&self, parent: &A::State) -> (r: Vec<CondensedRule<A::State>>)
        ensures
            groups::distinct_groups(r@),
    {
        proof {
            use_type_invariant(self.hom);
            self.hom.lemma_well_formed();
        }
        let ghost inner = self.wrapped();
        let ghost m = self.model();
        let source = Expanding { inner: &self.inner };
        let mut groups: Groups<A::State> = Groups::new();
        let count: usize = self.hom.num_terms();
        let mut t: usize = 0;
        while t < count
            invariant
                t <= count,
                count == m.terms.len(),
                m == self.model(),
                m.well_formed(),
                inner == self.wrapped(),
                arena::children_first(arena::hom_nodes(self.hom.term_arena())),
                self.hom@ == m,
                source.relation() == reach::steps_of(&inner),
                groups.wf(),
                forall|f: Symbol, children: Seq<A::State>, q: A::State| #[trigger]
                    traits::some_covers(groups.list(), f, children, q) <==> (q == *parent
                        && m.maps(f) && m.ids[f] < t && children.len() == m.arities[f]
                        && reach::reach(reach::steps_of(&inner), m.image(f), children, q)),
            decreases count - t,
        {
            let ghost start = groups.list();
            let ghost image = m.terms[t as int];
            let symbols = self.hom.label_set(t);
            assert(m.labels[t as int].len() > 0);
            let first = symbols[0];
            proof {
                assert(m.labels[t as int].contains(first));
                lemma_image_arity(m, t as int, first);
            }
            let mut arity: usize = 0;
            if let Some(n) = self.hom.source_arity(first) {
                arity = n;
            }
            assert(arity == m.arities[first]);
            let term = self.hom.term_by_id(t);
            let tuples = match_complete(&source, self.hom.arena(), term, arity, parent);
            let ghost list = cartesian::contents(tuples@);
            let mut k: usize = 0;
            assert(list.take(0) =~= Seq::empty());
            while k < tuples.len()
                invariant
                    k <= tuples@.len(),
                    list == cartesian::contents(tuples@),
                    groups.wf(),
                    forall|f: Symbol, children: Seq<A::State>, q: A::State| #[trigger]
                        traits::some_covers(groups.list(), f, children, q) <==> (
                        traits::some_covers(start, f, children, q) || (symbols@.contains(f) && q
                            == *parent && list.take(k as int).contains(children))),
                decreases tuples@.len() - k,
            {
                let ghost before = groups.list();
                let ghost tuple = list[k as int];
                let children = duplicate_all(tuples[k].as_slice());
                groups.add_symbols(children, parent.duplicate(), symbols);
                proof {
                    let seen = list.take(k as int);
                    assert(list.take(k + 1) =~= seen.push(tuple));
                    assert forall|f: Symbol, children: Seq<A::State>, q: A::State| #[trigger]
                        traits::some_covers(groups.list(), f, children, q) <==> (
                    traits::some_covers(start, f, children, q) || (symbols@.contains(f) && q
                        == *parent && list.take(k + 1).contains(children))) by {
                        symbol_set::lemma_push_contains(seen, tuple, children);
                        assert(traits::some_covers(before, f, children, q) <==> (
                        traits::some_covers(start, f, children, q) || (symbols@.contains(f) && q
                            == *parent && seen.contains(children))));
                    }
                }
                k += 1;
            }
            proof {
                assert(list.take(k as int) =~= list);
                assert forall|f: Symbol, children: Seq<A::State>, q: A::State| #[trigger]
                    traits::some_covers(groups.list(), f, children, q) <==> (q == *parent
                    && m.maps(f) && m.ids[f] < t + 1 && children.len() == m.arities[f]
                    && reach::reach(reach::steps_of(&inner), m.image(f), children, q)) by {
                    assert(m.labels[t as int].contains(f) <==> (m.maps(f) && m.ids[f] == t));
                    if symbols@.contains(f) {
                        lemma_image_arity(m, t as int, f);
                    }
                    assert(list.contains(children) <==> (children.len() == arity && reach::reach(
                        reach::steps_of(&inner),
                        image,
                        children,
                        *parent,
                    )));
                }
            }
            t += 1;
        }
        let r = groups.into_rules();
        proof {
            assert forall|f: Symbol, children: Seq<A::State>, q: A::State| #[trigger]
                traits::some_covers(r@, f, children, q) <==> (q == *parent && self.expands(
                f,
                children,
                q,
            )) by {
                assert(m.maps(f) ==> m.ids[f] < m.terms.len());
            }
        }
        r
    }

    fn condensed_initial_states(&self) -> (r: Vec<A::State>) {
        self.inner.initial_states()
    }
}

/// Whether every symbol of a tree is mapped and has as many children as its arity.
pub open spec fn ranked(m: HomModel, t: SymbolTree) -> bool
    decreases t,
{
    &&& m.maps(t.symbol)
    &&& m.arities[t.symbol] == t.children.len()
    &&& forall|i: int| 0 <= i < t.children.len() ==> ranked(m, #[trigger] t.children[i])
}

/// A tree of mapped symbols has an image.
pub proof fn lemma_ranked_image(m: HomModel, t: SymbolTree)
    requires
        m.well_formed(),
        ranked(m, t),
    ensures
        apply::image_of(m, t) is Ok,
    decreases t,
{
    assert forall|i: int| 0 <= i < t.children.len() implies apply::image_of(
        m,
        #[trigger] t.children[i],
    ) is Ok by {
        lemma_ranked_image(m, t.children[i]);
    }
    lemma_images_ok(m, t.children);
    let children = apply::images_of(m, t.children)->Ok_0;
    let image = m.image(t.symbol);
    lemma_nondeleting_vars(terms::term_vars(image), m.arities[t.symbol]);
    lemma_substitute_ok(image, children);
}

proof fn lemma_images_ok(m: HomModel, ts: Seq<SymbolTree>)
    requires
        forall|i: int| 0 <= i < ts.len() ==> apply::image_of(m, #[trigger] ts[i]) is Ok,
    ensures
        apply::images_of(m, ts) is Ok,
        (apply::images_of(m, ts)->Ok_0).len() == ts.len(),
        forall|i: int|
            0 <= i < ts.len() ==> apply::image_of(m, #[trigger] ts[i]) == Ok::<
                SymbolTree,
                HomomorphismError,
            >((apply::images_of(m, ts)->Ok_0)[i]),
    decreases ts.len(),
{
    if ts.len() > 0 {
        let front = ts.drop_last();
        assert forall|i: int| 0 <= i < front.len() implies apply::image_of(
            m,
            #[trigger] front[i],
        ) is Ok by {
            assert(front[i] == ts[i]);
        }
        lemma_images_ok(m, front);
        assert(apply::image_of(m, ts[ts.len() - 1]) is Ok);
        let all = apply::images_of(m, ts)->Ok_0;
        assert forall|i: int| 0 <= i < ts.len() implies apply::image_of(m, #[trigger] ts[i]) == Ok::<
            SymbolTree,
            HomomorphismError,
        >(all[i]) by {
            if i < front.len() {
                assert(front[i] == ts[i]);
            }
        }
    }
}

proof fn lemma_substitute_ok(t: Term, args: Seq<SymbolTree>)
    requires
        forall|v: usize| #[trigger] terms::term_vars(t).contains(v) ==> v < args.len(),
    ensures
        apply::substitute(t, args) is Ok,
    decreases t,
{
    match t {
        Term::Var(v) => {
            assert(terms::term_vars(t)[0] == v);
            assert(terms::term_vars(t).contains(v));
        },
        Term::App(f, parts) => {
            assert(terms::term_vars(t) == terms::list_vars(parts));
            lemma_substitute_parts_ok(parts, args);
        },
    }
}

proof fn lemma_substitute_parts_ok(parts: Seq<Term>, args: Seq<SymbolTree>)
    requires
        forall|v: usize| #[trigger] terms::list_vars(parts).contains(v) ==> v < args.len(),
    ensures
        apply::substitute_list(parts, args) is Ok,
    decreases parts,
{
    if parts.len() > 0 {
        let front = parts.drop_last();
        let last = parts.last();
        terms::lemma_list_vars_push(front, last);
        assert(front.push(last) =~= parts);
        assert forall|v: usize| #[trigger] terms::list_vars(front).contains(v) implies v
            < args.len() by {
            lemma_concat(terms::list_vars(front), terms::term_vars(last), v);
        }
        assert forall|v: usize| #[trigger] terms::term_vars(last).contains(v) implies v
            < args.len() by {
            lemma_concat(terms::list_vars(front), terms::term_vars(last), v);
        }
        lemma_substitute_parts_ok(front, args);
        lemma_substitute_ok(last, args);
    }
}

/// A source tree may get exactly the states that the wrapped automaton may give to
/// its image.
pub proof fn law_invhom_states<'h, 'a, A: BottomUpTa>(
    i: &InvHom<'h, 'a, A>,
    t: SymbolTree,
    q: A::State,
)
    requires
        i.model().well_formed(),
        ranked(i.model(), t),
    ensures
        apply::image_of(i.model(), t) is Ok,
        recognition::reaches(i, t, q) <==> recognition::reaches(
            &i.wrapped(),
            apply::image_of(i.model(), t)->Ok_0,
            q,
        ),
    decreases t,
{
    let m = i.model();
    let inner = &i.wrapped();
    let image = m.image(t.symbol);
    lemma_ranked_image(m, t);
    assert forall|c: int| 0 <= c < t.children.len() implies apply::image_of(
        m,
        #[trigger] t.children[c],
    ) is Ok by {
        lemma_ranked_image(m, t.children[c]);
    }
    lemma_images_ok(m, t.children);
    let images = apply::images_of(m, t.children)->Ok_0;
    let vars = terms::term_vars(image);
    lemma_nondeleting_vars(vars, m.arities[t.symbol]);
    if recognition::reaches(i, t, q) {
        let states = recognition::lemma_reaches(i, t, q);
        assert forall|v: usize| v < images.len() && #[trigger] vars.contains(v) implies
            recognition::reaches(inner, images[v as int], states[v as int]) by {
            let child = t.children[v as int];
            assert(ranked(m, child));
            assert(recognition::reaches(i, child, states[v as int]));
            law_invhom_states(i, child, states[v as int]);
        }
        reach::lemma_substitute_reaches(inner, image, images, states, q);
    }
    if recognition::reaches(inner, apply::image_of(m, t)->Ok_0, q) {
        let states = reach::lemma_reaches_substitute(inner, image, images, q);
        assert forall|c: int| 0 <= c < t.children.len() implies recognition::reaches(
            i,
            #[trigger] t.children[c],
            states[c],
        ) by {
            assert(vars.contains(c as usize));
            assert(ranked(m, t.children[c]));
            law_invhom_states(i, t.children[c], states[c]);
        }
        assert(i.steps_to(t.symbol, states, q));
    }
}

/// The inverse homomorphism accepts exactly the trees whose image the wrapped
/// automaton accepts.
pub proof fn law_invhom_recognizes<'h, 'a, A: BottomUpTa>(i: &InvHom<'h, 'a, A>, t: SymbolTree)
    requires
        i.model().well_formed(),
        ranked(i.model(), t),
    ensures
        apply::image_of(i.model(), t) is Ok,
        recognition::recognizes(i, t) <==> recognition::recognizes(
            &i.wrapped(),
            apply::image_of(i.model(), t)->Ok_0,
        ),
{
    lemma_ranked_image(i.model(), t);
    let u = apply::image_of(i.model(), t)->Ok_0;
    if recognition::recognizes(i, t) {
        let q = choose|q: A::State| #[trigger] recognition::reaches(i, t, q) && i.accepts(q);
        law_invhom_states(i, t, q);
        assert(recognition::reaches(&i.wrapped(), u, q) && i.wrapped().accepts(q));
    }
    if recognition::recognizes(&i.wrapped(), u) {
        let q = choose|q: A::State| #[trigger]
            recognition::reaches(&i.wrapped(), u, q) && i.wrapped().accepts(q);
        law_invhom_states(i, t, q);
        assert(recognition::reaches(i, t, q) && i.accepts(q));
    }
}

} // verus!
