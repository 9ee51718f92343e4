//! Flattening the rules of a grammar to the yields of one interpretation.
use crate::arena;
use crate::arena::{hom_children, hom_label};
use crate::automaton::RuleModel;
use crate::explicit::Explicit;
use crate::homomorphism::{HomLabel, HomModel, Homomorphism};
use crate::ids::StateId;
use crate::obligations::needs;
use crate::obligations::needs::{FlatRule, Tok, TokenRule};
use crate::terms;
use crate::terms::Term;
use packed_term_arena::tree::{Tree, TreeArena};
use vstd::prelude::*;

verus! {

/// The yield of a term, from left to right: its leaf symbols, and for a variable the
/// child that it stands for.
pub open spec fn term_yield(t: Term, children: Seq<StateId>) -> Seq<Tok>
    decreases t,
{
    match t {
        Term::Var(v) => if v < children.len() {
            seq![Tok::Child(children[v as int].0 as usize)]
        } else {
            Seq::empty()
        },
        Term::App(f, args) => if args.len() == 0 {
            seq![Tok::Word(f.0)]
        } else {
            list_yield(args, children)
        },
    }
}

/// The yields of terms one after the other.
pub open spec fn list_yield(args: Seq<Term>, children: Seq<StateId>) -> Seq<Tok>
    decreases args,
{
    if args.len() == 0 {
        Seq::empty()
    } else {
        term_yield(args[0], children) + list_yield(args.skip(1), children)
    }
}

pub proof fn lemma_list_yield_push(args: Seq<Term>, t: Term, children: Seq<StateId>)
    ensures
        list_yield(args.push(t), children) == list_yield(args, children) + term_yield(t, children),
    decreases args.len(),
{
    let all = args.push(t);
    if args.len() == 0 {
        assert(all.skip(1) =~= Seq::empty());
        assert(list_yield(all.skip(1), children) =~= Seq::empty());
        assert(list_yield(all, children) =~= term_yield(t, children));
    } else {
        lemma_list_yield_push(args.skip(1), t, children);
        assert(all.skip(1) =~= args.skip(1).push(t));
        assert(all[0] == args[0]);
        assert(list_yield(all, children) =~= list_yield(args, children) + term_yield(t, children));
    }
}

/// Appends the yield of the term below a node.
pub fn frontier(
    arena: &TreeArena<HomLabel>,
    node: Tree,
    children: &[StateId],
    out: &mut Vec<Tok>,
)
    requires
        arena::children_first(arena::hom_nodes(*arena)),
        arena::tree_number(node) < arena::hom_nodes(*arena).len(),
    ensures
        final(out)@ == old(out)@ + term_yield(
            terms::term_at(arena::hom_nodes(*arena), arena::tree_number(node)),
            children@,
        ),
    decreases arena::tree_number(node),
{
    let ghost nodes = arena::hom_nodes(*arena);
    let ghost i = arena::tree_number(node);
    proof {
        terms::lemma_term_args(nodes, i);
    }
    match hom_label(arena, node) {
        HomLabel::Var(v) => {
            if v < children.len() {
                out.push(Tok::Child(children[v].index()));
            }
            assert(out@ =~= old(out)@ + term_yield(Term::Var(v), children@));
        },
        HomLabel::Symbol(f) => {
            let kids = hom_children(arena, node);
            let ghost numbers = nodes[i as int].1;
            let ghost args = terms::terms_at(nodes, numbers);
            let ghost before = out@;
            assert(arena::tree_numbers(kids@).len() == kids@.len());
            if kids.len() == 0 {
                out.push(Tok::Word(f.0));
                assert(out@ =~= before + term_yield(Term::App(f, args), children@));
                return;
            }
            let mut c: usize = 0;
            assert(args.take(0) =~= Seq::empty());
            assert(before + list_yield(args.take(0), children@) =~= before);
            while c < kids.len()
                invariant
                    c <= kids@.len(),
                    nodes == arena::hom_nodes(*arena),
                    arena::children_first(nodes),
                    i == arena::tree_number(node),
                    i < nodes.len(),
                    numbers == nodes[i as int].1,
                    args == terms::terms_at(nodes, numbers),
                    arena::tree_numbers(kids@) == numbers,
                    forall|d: int| 0 <= d < numbers.len() ==> #[trigger] numbers[d] < i,
                    out@ == before + list_yield(args.take(c as int), children@),
                decreases kids@.len() - c,
            {
                assert(arena::tree_numbers(kids@)[c as int] == arena::tree_number(
                    kids@[c as int],
                ));
                assert(numbers[c as int] < i);
                frontier(arena, kids[c], children, out);
                proof {
                    lemma_list_yield_push(args.take(c as int), args[c as int], children@);
                    assert(args.take(c + 1) =~= args.take(c as int).push(args[c as int]));
                    assert(out@ =~= before + list_yield(args.take(c + 1), children@));
                }
                c += 1;
            }
            assert(args.take(c as int) =~= args);
        },
    }
}

/// Whether a state is one of the first `n`, and not the sentinel.
pub open spec fn ordinary(q: StateId, n: nat) -> bool {
    q.0 != StateId::STUCK && q.0 < n
}

/// Whether a rule is kept: its symbol has an image and its states are ordinary.
pub open spec fn is_kept(rule: RuleModel, hom: HomModel, n: nat) -> bool {
    &&& hom.maps(rule.symbol)
    &&& ordinary(rule.result, n)
    &&& forall|p: int| 0 <= p < rule.children.len() ==> ordinary(#[trigger] rule.children[p], n)
}

/// A rule flattened to the yield of its image.
pub open spec fn flat_rule(rule: RuleModel, hom: HomModel) -> TokenRule {
    TokenRule {
        result: rule.result.0 as int,
        tokens: term_yield(hom.image(rule.symbol), rule.children),
    }
}

/// The rules that are kept, flattened, in rule order.
pub open spec fn flat_rules(rules: Seq<RuleModel>, hom: HomModel, n: nat) -> Seq<TokenRule>
    decreases rules.len(),
{
    if rules.len() == 0 {
        Seq::empty()
    } else {
        let earlier = flat_rules(rules.drop_last(), hom, n);
        if is_kept(rules.last(), hom, n) {
            earlier.push(flat_rule(rules.last(), hom))
        } else {
            earlier
        }
    }
}

proof fn lemma_yield_below(t: Term, children: Seq<StateId>, n: nat)
    requires
        forall|p: int| 0 <= p < children.len() ==> ordinary(#[trigger] children[p], n),
    ensures
        forall|p: int|
            0 <= p < term_yield(t, children).len() ==> needs::token_below(
                #[trigger] term_yield(t, children)[p],
                n,
            ),
    decreases t,
{
    let all = term_yield(t, children);
    if let Term::App(f, args) = t {
        lemma_list_yield_below(args, children, n);
    }
    assert forall|p: int| 0 <= p < all.len() implies needs::token_below(#[trigger] all[p], n) by {
        match t {
            Term::Var(v) => {
                assert(ordinary(children[v as int], n));
                assert(all[p] == Tok::Child(children[v as int].0 as usize));
            },
            Term::App(f, args) => {
                if args.len() == 0 {
                    assert(all[p] == Tok::Word(f.0));
                } else {
                    assert(all[p] == list_yield(args, children)[p]);
                }
            },
        }
    }
}

proof fn lemma_list_yield_below(args: Seq<Term>, children: Seq<StateId>, n: nat)
    requires
        forall|p: int| 0 <= p < children.len() ==> ordinary(#[trigger] children[p], n),
    ensures
        forall|p: int|
            0 <= p < list_yield(args, children).len() ==> needs::token_below(
                #[trigger] list_yield(args, children)[p],
                n,
            ),
    decreases args,
{
    if args.len() > 0 {
        lemma_yield_below(args[0], children, n);
        lemma_list_yield_below(args.skip(1), children, n);
        let head = term_yield(args[0], children);
        assert forall|p: int| 0 <= p < list_yield(args, children).len() implies needs::token_below(
            #[trigger] list_yield(args, children)[p],
            n,
        ) by {
            if p < head.len() {
                assert(list_yield(args, children)[p] == head[p]);
            } else {
                assert(list_yield(args, children)[p] == list_yield(args.skip(1), children)[p
                    - head.len()]);
            }
        }
    }
}

/// Whether every state of a list is ordinary.
fn all_ordinary(states: &[StateId], n: usize) -> (r: bool)
    ensures
        r == forall|p: int| 0 <= p < states@.len() ==> ordinary(#[trigger] states@[p], n as nat),
{
    let mut p: usize = 0;
    while p < states.len()
        invariant
            p <= states@.len(),
            forall|q: int| 0 <= q < p ==> ordinary(#[trigger] states@[q], n as nat),
        decreases states@.len() - p,
    {
        if states[p].is_stuck() || states[p].index() >= n {
            assert(!ordinary(states@[p as int], n as nat));
            return false;
        }
        p += 1;
    }
    true
}

/// Whether `roots` lists the accepting states among the first `n`, in increasing order.
pub open spec fn lists_roots(roots: Seq<usize>, accepting: Set<StateId>, n: nat) -> bool {
    &&& forall|k: int|
        0 <= k < roots.len() ==> (#[trigger] roots[k]) < n && accepting.contains(
            StateId(roots[k] as u32),
        )
    &&& forall|q: StateId|
        #[trigger] accepting.contains(q) && ordinary(q, n) ==> roots.contains(q.0 as usize)
    &&& forall|i: int, j: int| 0 <= i < j < roots.len() ==> roots[i] < roots[j]
}

/// Flattens the rules of a grammar under one interpretation, and lists its accepting
/// states, as far as they mention the first `num_states` states only.
pub fn extract_flat_rules(
    grammar: &Explicit,
    hom: &Homomorphism<'_>,
    num_states: usize,
) -> (r: (Vec<FlatRule>, Vec<usize>))
    ensures
        needs::token_rules(r.0@) == flat_rules(grammar@.rules, hom@, num_states as nat),
        needs::rules_below(needs::token_rules(r.0@), num_states as nat),
        lists_roots(r.1@, grammar@.accepting, num_states as nat),
{
    proof {
        use_type_invariant(hom);
        hom.lemma_well_formed();
    }
    let arena = hom.arena();
    let mut flat: Vec<FlatRule> = Vec::new();
    let mut i: usize = 0;
    assert(grammar@.rules.take(0) =~= Seq::empty());
    assert(needs::token_rules(flat@) =~= Seq::empty());
    while i < grammar.num_rules()
        invariant
            i <= grammar@.rules.len(),
            *arena == hom.term_arena(),
            arena::children_first(arena::hom_nodes(*arena)),
            needs::token_rules(flat@) == flat_rules(
                grammar@.rules.take(i as int),
                hom@,
                num_states as nat,
            ),
            needs::rules_below(needs::token_rules(flat@), num_states as nat),
        decreases grammar@.rules.len() - i,
    {
        let rule = grammar.rule(i);
        let ghost done = flat@;
        proof {
            assert(grammar@.rules.take(i + 1).drop_last() =~= grammar@.rules.take(i as int));
            assert(grammar@.rules.take(i + 1).last() == rule@);
        }
        if let Some(term) = hom.get(rule.symbol) {
            if all_ordinary(rule.children, num_states) && !rule.result.is_stuck()
                && rule.result.index() < num_states {
                let mut tokens: Vec<Tok> = Vec::new();
                frontier(arena, term, rule.children, &mut tokens);
                let made = FlatRule { result: rule.result.index(), tokens };
                proof {
                    lemma_yield_below(hom@.image(rule.symbol), rule.children@, num_states as nat);
                    assert(made.tokens@ =~= term_yield(
                        hom@.image(rule.symbol),
                        rule.children@,
                    ));
                    assert(made@ == flat_rule(rule@, hom@));
                    assert(needs::rule_below(made@, num_states as nat));
                }
                flat.push(made);
                proof {
                    assert(needs::token_rules(flat@) =~= needs::token_rules(done).push(made@));
                    assert forall|j: int| 0 <= j < flat@.len() implies needs::rule_below(
                        #[trigger] needs::token_rules(flat@)[j],
                        num_states as nat,
                    ) by {
                        if j < done.len() {
                            assert(needs::token_rules(flat@)[j] == needs::token_rules(done)[j]);
                        }
                    }
                }
            }
        }
        i += 1;
    }
    assert(grammar@.rules.take(i as int) =~= grammar@.rules);
    let accepting = grammar.accepting_states();
    let mut roots: Vec<usize> = Vec::new();
    let mut k: usize = 0;
    while k < accepting.len()
        invariant
            k <= accepting@.len(),
            forall|q: StateId| #[trigger]
                accepting@.contains(q) <==> grammar@.accepting.contains(q),
            forall|i: int, j: int|
                0 <= i < j < accepting@.len() ==> (#[trigger] accepting@[i]).0 < (
                #[trigger] accepting@[j]).0,
            forall|j: int|
                0 <= j < roots@.len() ==> (#[trigger] roots@[j]) < num_states
                    && grammar@.accepting.contains(StateId(roots@[j] as u32)) && (k
                    < accepting@.len() ==> roots@[j] < accepting@[k as int].0),
            forall|j: int|
                0 <= j < k && ordinary(#[trigger] accepting@[j], num_states as nat)
                    ==> roots@.contains(accepting@[j].0 as usize),
            forall|i: int, j: int| 0 <= i < j < roots@.len() ==> roots@[i] < roots@[j],
        decreases accepting@.len() - k,
    {
        let q = accepting[k];
        let ghost done = roots@;
        assert(accepting@.contains(q));
        if !q.is_stuck() && q.index() < num_states {
            roots.push(q.index());
            assert(roots@[done.len() as int] == q.0);
            assert(StateId(q.0 as usize as u32) == q);
        }
        k += 1;
        proof {
            assert forall|j: int| 0 <= j < roots@.len() implies (#[trigger] roots@[j])
                < num_states && grammar@.accepting.contains(StateId(roots@[j] as u32)) && (k
                < accepting@.len() ==> roots@[j] < accepting@[k as int].0) by {
                if k < accepting@.len() {
                    assert(accepting@[k - 1].0 < accepting@[k as int].0);
                }
                if j < done.len() {
                    assert(roots@[j] == done[j]);
                }
            }
            assert forall|j: int|
                0 <= j < k && ordinary(
                    #[trigger] accepting@[j],
                    num_states as nat,
                ) implies roots@.contains(accepting@[j].0 as usize) by {
                if j < k - 1 {
                    let w = choose|w: int|
                        0 <= w < done.len() && done[w] == accepting@[j].0 as usize;
                    assert(done.contains(accepting@[j].0 as usize));
                    assert(roots@[w] == done[w]);
                } else {
                    assert(roots@[done.len() as int] == accepting@[j].0 as usize);
                }
            }
        }
    }
    proof {
        assert forall|q: StateId| #[trigger]
            grammar@.accepting.contains(q) && ordinary(
                q,
                num_states as nat,
            ) implies roots@.contains(q.0 as usize) by {
            assert(accepting@.contains(q));
            let j = choose|j: int| 0 <= j < accepting@.len() && accepting@[j] == q;
            assert(ordinary(accepting@[j], num_states as nat));
        }
    }
    (flat, roots)
}

} // verus!
