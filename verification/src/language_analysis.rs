//! Which states and rules of an automaton take part in accepting derivations.
use crate::ids::StateId;
use crate::release;
use crate::worklist;
use std::collections::VecDeque;
use vstd::prelude::*;

verus! {

/// The part of a transition rule that decides which states it connects.
pub struct RuleShape {
    pub children: Seq<StateId>,
    pub result: StateId,
}

/// One rule as the analysis reads it: its child states and its result.
pub struct RuleInput<'a> {
    pub children: &'a [StateId],
    pub result: StateId,
}

impl<'a> View for RuleInput<'a> {
    type V = RuleShape;

    open spec fn view(&self) -> RuleShape {
        RuleShape { children: self.children@, result: self.result }
    }
}

/// The shapes of the analysed rules.
pub open spec fn shapes(rules: Seq<RuleInput>) -> Seq<RuleShape> {
    Seq::new(rules.len(), |i: int| rules[i]@)
}

/// Whether every state that a rule mentions is one of the first `n` states.
pub open spec fn shape_below(shape: RuleShape, n: nat) -> bool {
    &&& shape.result.0 < n
    &&& forall|p: int| 0 <= p < shape.children.len() ==> (#[trigger] shape.children[p]).0 < n
}

/// Whether the rules mention only the first `n` states.
pub open spec fn shapes_below(rules: Seq<RuleShape>, n: nat) -> bool {
    forall|i: int| 0 <= i < rules.len() ==> shape_below(#[trigger] rules[i], n)
}

/// Whether all children of a rule lie in `s`.
pub open spec fn children_in(shape: RuleShape, s: Set<StateId>) -> bool {
    forall|p: int| 0 <= p < shape.children.len() ==> s.contains(#[trigger] shape.children[p])
}

/// Whether `s` holds the result of every rule whose children it holds.
pub open spec fn productive_closed(rules: Seq<RuleShape>, s: Set<StateId>) -> bool {
    forall|i: int|
        0 <= i < rules.len() && children_in(#[trigger] rules[i], s) ==> s.contains(rules[i].result)
}

/// Whether some finite derivation ends in `q`: `q` lies in every set that is
/// closed under the rules.
pub open spec fn is_productive(rules: Seq<RuleShape>, q: StateId) -> bool {
    forall|s: Set<StateId>| #[trigger] productive_closed(rules, s) ==> s.contains(q)
}

/// Whether every child of rule `i` is productive.
pub open spec fn rule_productive(rules: Seq<RuleShape>, i: int) -> bool {
    forall|p: int|
        0 <= p < rules[i].children.len() ==> is_productive(rules, #[trigger] rules[i].children[p])
}

/// Whether `s` holds `roots` and, with the result of a usable rule, its children.
pub open spec fn below_closed(
    rules: Seq<RuleShape>,
    roots: Set<StateId>,
    usable: Seq<bool>,
    s: Set<StateId>,
) -> bool {
    &&& forall|q: StateId| #[trigger] roots.contains(q) ==> s.contains(q)
    &&& forall|i: int|
        0 <= i < rules.len() && usable[i] && s.contains(rules[i].result) ==> children_in(
            #[trigger] rules[i],
            s,
        )
}

/// Whether `q` is a root or lies below one through usable rules.
pub open spec fn is_below(
    rules: Seq<RuleShape>,
    roots: Set<StateId>,
    usable: Seq<bool>,
    q: StateId,
) -> bool {
    forall|s: Set<StateId>| #[trigger] below_closed(rules, roots, usable, s) ==> s.contains(q)
}

/// The accepting states that some derivation ends in.
pub open spec fn productive_roots(
    rules: Seq<RuleShape>,
    accepting: Set<StateId>,
) -> Set<StateId> {
    Set::new(|q: StateId| accepting.contains(q) && is_productive(rules, q))
}

/// For every rule, whether all its children are productive.
pub open spec fn productive_mask(rules: Seq<RuleShape>) -> Seq<bool> {
    Seq::new(rules.len(), |i: int| rule_productive(rules, i))
}

/// Whether `q` occurs in an accepting derivation: it is productive and lies below
/// an accepting state through productive rules.
pub open spec fn is_relevant(
    rules: Seq<RuleShape>,
    accepting: Set<StateId>,
    q: StateId,
) -> bool {
    is_below(rules, productive_roots(rules, accepting), productive_mask(rules), q)
}

/// Whether rule `i` occurs in an accepting derivation.
pub open spec fn is_live(rules: Seq<RuleShape>, accepting: Set<StateId>, i: int) -> bool {
    &&& rule_productive(rules, i)
    &&& is_relevant(rules, accepting, rules[i].result)
}

/// Whether every state of `c` depends, by a live rule, on a state of `c`.
pub open spec fn cyclic_core(
    rules: Seq<RuleShape>,
    accepting: Set<StateId>,
    c: Set<StateId>,
) -> bool {
    &&& exists|q: StateId| c.contains(q)
    &&& forall|q: StateId| #[trigger] c.contains(q) ==> depends_within(rules, accepting, c, q)
}

/// Whether a live rule with result `q` has a child in `c`.
pub open spec fn depends_within(
    rules: Seq<RuleShape>,
    accepting: Set<StateId>,
    c: Set<StateId>,
    q: StateId,
) -> bool {
    exists|i: int, p: int|
        0 <= i < rules.len() && is_live(rules, accepting, i) && rules[i].result == q && 0 <= p
            < rules[i].children.len() && c.contains(#[trigger] rules[i].children[p])
}

/// Whether accepting derivations can run through a cycle.
pub open spec fn is_cyclic(rules: Seq<RuleShape>, accepting: Set<StateId>) -> bool {
    exists|c: Set<StateId>| cyclic_core(rules, accepting, c)
}

/// Whether `order` lists the relevant states once each, the children of every
/// live rule before its result.
pub open spec fn is_child_first(
    rules: Seq<RuleShape>,
    accepting: Set<StateId>,
    order: Seq<StateId>,
) -> bool {
    &&& order.no_duplicates()
    &&& forall|q: StateId| #[trigger] order.contains(q) <==> is_relevant(rules, accepting, q)
    &&& forall|i: int, p: int, a: int, b: int|
        0 <= i < rules.len() && is_live(rules, accepting, i) && 0 <= p < rules[i].children.len()
            && 0 <= a < order.len() && 0 <= b < order.len() && #[trigger] order[a]
            == #[trigger] rules[i].children[p] && #[trigger] order[b] == rules[i].result ==> a < b
}

/// The numbers of the rules with result `q`, in increasing order.
pub open spec fn rules_with_result(rules: Seq<RuleShape>, q: StateId) -> Seq<usize>
    decreases rules.len(),
{
    if rules.len() == 0 {
        Seq::empty()
    } else if rules.last().result == q {
        rules_with_result(rules.drop_last(), q).push((rules.len() - 1) as usize)
    } else {
        rules_with_result(rules.drop_last(), q)
    }
}

/// What the analysis found.
pub struct LanguageAnalysis {
    /// For every state, whether it is productive.
    pub productive: Vec<bool>,
    /// For every rule, whether all its children are productive.
    pub productive_rules: Vec<bool>,
    /// For every state, whether it occurs in an accepting derivation.
    pub relevant: Vec<bool>,
    /// For every state, the rules with that result.
    pub rules_by_result: Vec<Vec<usize>>,
    /// Child-before-parent order, or `None` when the relevant graph is cyclic.
    pub topological: Option<Vec<StateId>>,
}

impl LanguageAnalysis {
    /// Whether this analysis describes `rules` on `n` states.
    pub open spec fn describes(
        &self,
        n: nat,
        rules: Seq<RuleShape>,
        accepting: Set<StateId>,
    ) -> bool {
        &&& self.productive@.len() == n
        &&& self.productive_rules@.len() == rules.len()
        &&& self.relevant@.len() == n
        &&& self.rules_by_result@.len() == n
        &&& forall|s: int|
            0 <= s < n ==> #[trigger] self.productive@[s] == is_productive(
                rules,
                StateId(s as u32),
            )
        &&& forall|i: int|
            0 <= i < rules.len() ==> #[trigger] self.productive_rules@[i] == rule_productive(
                rules,
                i,
            )
        &&& forall|s: int|
            0 <= s < n ==> #[trigger] self.relevant@[s] == is_relevant(
                rules,
                accepting,
                StateId(s as u32),
            )
        &&& forall|s: int|
            0 <= s < n ==> (#[trigger] self.rules_by_result@[s])@ == rules_with_result(
                rules,
                StateId(s as u32),
            )
        &&& match self.topological {
            Some(order) => is_child_first(rules, accepting, order@) && !is_cyclic(rules, accepting),
            None => is_cyclic(rules, accepting),
        }
    }
}

/// Whether `edges` connects every child of a rule to that rule, and nothing else.
pub open spec fn child_edges_of(rules: Seq<RuleShape>, edges: Seq<(usize, usize)>) -> bool {
    &&& forall|k: int|
        0 <= k < edges.len() ==> {
            &&& (#[trigger] edges[k]).1 < rules.len()
            &&& exists|p: int|
                0 <= p < rules[edges[k].1 as int].children.len()
                    && #[trigger] rules[edges[k].1 as int].children[p].0 == edges[k].0
        }
    &&& forall|i: int, p: int|
        0 <= i < rules.len() && 0 <= p < rules[i].children.len() ==> edges.contains(
            (#[trigger] rules[i].children[p].0 as usize, i as usize),
        )
}

pub(crate) fn child_edges(rules: &Vec<RuleInput>) -> (edges: Vec<(usize, usize)>)
    ensures
        child_edges_of(shapes(rules@), edges@),
{
    let mut edges: Vec<(usize, usize)> = Vec::new();
    let ghost all = shapes(rules@);
    let mut i: usize = 0;
    while i < rules.len()
        invariant
            i <= rules@.len(),
            all == shapes(rules@),
            forall|k: int|
                0 <= k < edges@.len() ==> {
                    &&& (#[trigger] edges@[k]).1 < i
                    &&& exists|p: int|
                        0 <= p < all[edges@[k].1 as int].children.len()
                            && #[trigger] all[edges@[k].1 as int].children[p].0 == edges@[k].0
                },
            forall|j: int, p: int|
                0 <= j < i && 0 <= p < all[j].children.len() ==> edges@.contains(
                    (#[trigger] all[j].children[p].0 as usize, j as usize),
                ),
        decreases rules@.len() - i,
    {
        let children = rules[i].children;
        let mut p: usize = 0;
        while p < children.len()
            invariant
                i < rules@.len(),
                p <= children@.len(),
                all == shapes(rules@),
                all[i as int].children == children@,
                forall|k: int|
                    0 <= k < edges@.len() ==> {
                        &&& (#[trigger] edges@[k]).1 <= i
                        &&& exists|r: int|
                            0 <= r < all[edges@[k].1 as int].children.len()
                                && #[trigger] all[edges@[k].1 as int].children[r].0 == edges@[k].0
                    },
                forall|j: int, r: int|
                    0 <= j < i && 0 <= r < all[j].children.len() ==> edges@.contains(
                        (#[trigger] all[j].children[r].0 as usize, j as usize),
                    ),
                forall|r: int|
                    0 <= r < p ==> edges@.contains(
                        (#[trigger] all[i as int].children[r].0 as usize, i),
                    ),
            decreases children@.len() - p,
        {
            let ghost before = edges@;
            edges.push((children[p].index(), i));
            proof {
                assert(all[i as int].children[p as int].0 == edges@.last().0);
                assert forall|e: (usize, usize)| before.contains(e) implies edges@.contains(e) by {
                    let k = choose|k: int| 0 <= k < before.len() && before[k] == e;
                    assert(edges@[k] == e);
                }
                assert(edges@[edges@.len() - 1] == (children@[p as int].0 as usize, i));
            }
            p += 1;
        }
        i += 1;
    }
    edges
}

/// The states that some derivation ends in, and the rules whose children all are
/// such states.
pub fn productive_states(state_count: usize, rules: &Vec<RuleInput>) -> (r: (Vec<bool>, Vec<bool>))
    requires
        shapes_below(shapes(rules@), state_count as nat),
        state_count <= u32::MAX,
    ensures
        r.0@.len() == state_count,
        r.1@.len() == rules@.len(),
        forall|s: int|
            0 <= s < state_count ==> #[trigger] r.0@[s] == is_productive(
                shapes(rules@),
                StateId(s as u32),
            ),
        forall|i: int|
            0 <= i < rules@.len() ==> #[trigger] r.1@[i] == rule_productive(shapes(rules@), i),
{
    let ghost all = shapes(rules@);
    let rule_count: usize = rules.len();
    let edges = child_edges(rules);
    proof {
        assert forall|k: int| 0 <= k < edges@.len() implies (#[trigger] edges@[k]).0
            < state_count by {
            let i = edges@[k].1 as int;
            let p = choose|p: int|
                0 <= p < all[i].children.len() && #[trigger] all[i].children[p].0 == edges@[k].0;
            assert(shape_below(all[i], state_count as nat));
        }
    }
    let out = release::adjacency(state_count, &edges);
    let mut remaining = release::in_counts(rules.len(), &edges);
    let mut productive: Vec<bool> = vec![false; state_count];
    let mut productive_rules: Vec<bool> = vec![false; rules.len()];
    let mut work: VecDeque<usize> = VecDeque::new();
    let ghost mut done: Set<usize> = Set::empty();
    let mut i: usize = 0;
    while i < rules.len()
        invariant
            i <= rules@.len(),
            all == shapes(rules@),
            state_count <= u32::MAX,
            rules@.len() == rule_count,
            shapes_below(all, state_count as nat),
            child_edges_of(all, edges@),
            done == Set::<usize>::empty(),
            productive@.len() == state_count,
            productive_rules@.len() == rules@.len(),
            remaining@.len() == rules@.len(),
            forall|j: usize|
                j < rules@.len() ==> #[trigger] remaining@[j as int] == release::pending(edges@, done, j),
            worklist::frontier_ok(productive@, work@, done),
            marks_sound(all, productive@),
            forall|j: int| 0 <= j < i ==> #[trigger] productive_rules@[j] == (remaining@[j] == 0),
            forall|j: int| i <= j < rules@.len() ==> !#[trigger] productive_rules@[j],
            forall|j: int|
                0 <= j < i && #[trigger] productive_rules@[j]
                    ==> productive@[all[j].result.0 as int],
        decreases rules@.len() - i,
    {
        if remaining[i] == 0 {
            productive_rules.set(i, true);
            let result: usize = rules[i].result.index();
            proof {
                assert(shape_below(all[i as int], state_count as nat));
                lemma_release_sound(all, productive@, edges@, done, work@, i);
                worklist::lemma_frontier_mark(productive@, work@, done, result);
            }
            worklist::mark(&mut productive, &mut work, result);
        }
        i += 1;
    }
    while work.len() > 0
        invariant
            all == shapes(rules@),
            state_count <= u32::MAX,
            rules@.len() == rule_count,
            shapes_below(all, state_count as nat),
            child_edges_of(all, edges@),
            release::targets_below(edges@, rules@.len()),
            out@.len() == state_count,
            forall|s: usize|
                s < state_count ==> (#[trigger] out@[s as int])@ == release::targets(edges@, s),
            productive@.len() == state_count,
            productive_rules@.len() == rules@.len(),
            remaining@.len() == rules@.len(),
            forall|j: usize|
                j < rules@.len() ==> #[trigger] remaining@[j as int] == release::pending(edges@, done, j),
            worklist::frontier_ok(productive@, work@, done),
            marks_sound(all, productive@),
            forall|j: int|
                0 <= j < rules@.len() ==> #[trigger] productive_rules@[j] == (remaining@[j] == 0),
            forall|j: int|
                0 <= j < rules@.len() && #[trigger] productive_rules@[j]
                    ==> productive@[all[j].result.0 as int],
        decreases worklist::unmarked(productive@), work@.len(),
    {
        let ghost work_before = work@;
        let ghost remaining_before = remaining@;
        let ghost unmarked_before = worklist::unmarked(productive@);
        let state: usize = work.pop_front().unwrap();
        proof {
            worklist::lemma_frontier_pop(productive@, work_before, done);
            release::lemma_targets_below(edges@, state, rules@.len());
            assert forall|d: usize| d < rules@.len() implies release::count_eq(
                out@[state as int]@,
                d,
            ) <= #[trigger] remaining@[d as int] by {
                release::lemma_pending_insert(edges@, done, state, d);
            }
        }
        let released = release::discharge(&mut remaining, &out[state]);
        proof {
            assert forall|d: usize| d < rules@.len() implies #[trigger] remaining@[d as int]
                == release::pending(edges@, done.insert(state), d) by {
                release::lemma_pending_insert(edges@, done, state, d);
                assert(remaining_before[d as int] == release::pending(edges@, done, d));
            }
            done = done.insert(state);
            assert(work@ =~= work_before.skip(1));
            assert forall|j: int| 0 <= j < released@.len() implies (#[trigger] released@[j])
                < rules@.len() && remaining@[released@[j] as int] == 0 by {
                assert(released@.contains(released@[j]));
            }
            assert forall|j: usize| j < rules@.len() implies (productive_rules@[j as int]
                ==> remaining@[j as int] == 0) && (remaining@[j as int] == 0 ==> (
            #[trigger] productive_rules@[j as int] || released@.contains(j))) by {
                assert(remaining@[j as int] <= remaining_before[j as int]);
                assert(productive_rules@[j as int] == (remaining_before[j as int] == 0));
                assert(released@.contains(j) <==> (remaining_before[j as int] > 0
                    && remaining@[j as int] == 0));
            }
            assert(released@.skip(0) =~= released@);
            assert forall|j: int| 0 <= j < rules@.len()
                && #[trigger] productive_rules@[j] implies remaining@[j] == 0 by {
                assert(productive_rules@[j as usize as int]);
            }
        }
        let mut k: usize = 0;
        while k < released.len()
            invariant
                all == shapes(rules@),
                state_count <= u32::MAX,
            rules@.len() == rule_count,
                shapes_below(all, state_count as nat),
                child_edges_of(all, edges@),
                k <= released@.len(),
                forall|j: int|
                    0 <= j < released@.len() ==> (#[trigger] released@[j]) < rules@.len()
                        && remaining@[released@[j] as int] == 0,
                productive@.len() == state_count,
                productive_rules@.len() == rules@.len(),
                remaining@.len() == rules@.len(),
                forall|j: usize|
                    j < rules@.len() ==> #[trigger] remaining@[j as int] == release::pending(
                        edges@,
                        done,
                        j,
                    ),
                worklist::frontier_ok(productive@, work@, done),
                marks_sound(all, productive@),
                forall|j: int|
                    0 <= j < rules@.len() && #[trigger] productive_rules@[j] ==> remaining@[j] == 0,
                forall|j: usize|
                    j < rules@.len() && remaining@[j as int] == 0 ==> (
                    #[trigger] productive_rules@[j as int] || released@.skip(k as int).contains(
                        j,
                    )),
                forall|j: int|
                    0 <= j < rules@.len() && #[trigger] productive_rules@[j]
                        ==> productive@[all[j].result.0 as int],
                worklist::unmarked(productive@) < unmarked_before || (worklist::unmarked(productive@)
                    == unmarked_before && work@.len() < work_before.len()),
            decreases released@.len() - k,
        {
            let rule: usize = released[k];
            let ghost rest = released@.skip(k as int);
            productive_rules.set(rule, true);
            let result: usize = rules[rule].result.index();
            proof {
                assert(shape_below(all[rule as int], state_count as nat));
                lemma_release_sound(all, productive@, edges@, done, work@, rule);
                worklist::lemma_frontier_mark(productive@, work@, done, result);
                worklist::lemma_unmarked_update(productive@, result as int);
                assert forall|j: usize| rest.contains(j) && j != rule implies released@.skip(
                    k + 1,
                ).contains(j) by {
                    let m = choose|m: int| 0 <= m < rest.len() && rest[m] == j;
                    assert(rest[0] == rule);
                    assert(released@.skip(k + 1)[m - 1] == j);
                }
            }
            worklist::mark(&mut productive, &mut work, result);
            k += 1;
        }
        proof {
            assert(released@.skip(k as int) =~= Seq::empty());
            assert forall|j: int| 0 <= j < rules@.len() implies #[trigger] productive_rules@[j]
                == (remaining@[j] == 0) by {
                assert(productive_rules@[j as usize as int] == productive_rules@[j]);
            }
        }
    }
    proof {
        let p = Set::new(|q: StateId| q.0 < state_count && productive@[q.0 as int]);
        assert forall|j: int| 0 <= j < all.len() && children_in(#[trigger] all[j], p) implies p.contains(
            all[j].result,
        ) by {
            assert forall|k: int|
                0 <= k < edges@.len() && (#[trigger] edges@[k]).1 == j implies done.contains(
                edges@[k].0,
            ) by {
                let c = choose|c: int|
                    0 <= c < all[j].children.len() && #[trigger] all[j].children[c].0
                        == edges@[k].0;
                assert(p.contains(all[j].children[c]));
            }
            release::lemma_pending_zero(edges@, done, j as usize);
            assert(remaining@[j as usize as int] == release::pending(edges@, done, j as usize));
            assert(productive_rules@[j]);
            assert(shape_below(all[j], state_count as nat));
        }
        assert(productive_closed(all, p));
        assert forall|s: int| 0 <= s < state_count implies #[trigger] productive@[s]
            == is_productive(all, StateId(s as u32)) by {
            if is_productive(all, StateId(s as u32)) {
                assert(p.contains(StateId(s as u32)));
            }
        }
        assert forall|j: int| 0 <= j < rules@.len() implies #[trigger] productive_rules@[j]
            == rule_productive(all, j) by {
            assert(remaining@[j as usize as int] == release::pending(edges@, done, j as usize));
            release::lemma_pending_zero(edges@, done, j as usize);
            assert(shape_below(all[j], state_count as nat));
            if productive_rules@[j] {
                assert forall|c: int| 0 <= c < all[j].children.len() implies is_productive(
                    all,
                    #[trigger] all[j].children[c],
                ) by {
                    let e = (all[j].children[c].0 as usize, j as usize);
                    assert(edges@.contains(e));
                    let k = choose|k: int| 0 <= k < edges@.len() && edges@[k] == e;
                    assert(done.contains(edges@[k].0));
                    assert(productive@[all[j].children[c].0 as int]);
                }
            }
            if rule_productive(all, j) {
                assert(children_in(all[j], p)) by {
                    assert forall|c: int| 0 <= c < all[j].children.len() implies p.contains(
                        #[trigger] all[j].children[c],
                    ) by {
                        assert(is_productive(all, all[j].children[c]));
                    }
                }
                assert forall|k: int|
                    0 <= k < edges@.len() && (#[trigger] edges@[k]).1 == j implies done.contains(
                    edges@[k].0,
                ) by {
                    let c = choose|c: int|
                        0 <= c < all[j].children.len() && #[trigger] all[j].children[c].0
                            == edges@[k].0;
                    assert(p.contains(all[j].children[c]));
                }
            }
        }
    }
    (productive, productive_rules)
}

/// Whether only productive states are marked.
pub open spec fn marks_sound(rules: Seq<RuleShape>, marked: Seq<bool>) -> bool {
    forall|s: int| 0 <= s < marked.len() && #[trigger] marked[s] ==> is_productive(
        rules,
        StateId(s as u32),
    )
}

/// A rule that waits for nothing has a productive result.
proof fn lemma_release_sound(
    rules: Seq<RuleShape>,
    marked: Seq<bool>,
    edges: Seq<(usize, usize)>,
    done: Set<usize>,
    work: Seq<usize>,
    i: usize,
)
    requires
        marked.len() <= u32::MAX,
        shapes_below(rules, marked.len()),
        child_edges_of(rules, edges),
        worklist::frontier_ok(marked, work, done),
        marks_sound(rules, marked),
        i < rules.len(),
        release::pending(edges, done, i) == 0,
    ensures
        is_productive(rules, rules[i as int].result),
        marks_sound(rules, marked.update(rules[i as int].result.0 as int, true)),
{
    let shape = rules[i as int];
    release::lemma_pending_zero(edges, done, i);
    assert(shape_below(shape, marked.len()));
    assert forall|s: Set<StateId>| #[trigger] productive_closed(rules, s) implies s.contains(
        shape.result,
    ) by {
        assert(children_in(shape, s)) by {
            assert forall|p: int| 0 <= p < shape.children.len() implies s.contains(
                #[trigger] shape.children[p],
            ) by {
                let e = (rules[i as int].children[p].0 as usize, i);
                assert(edges.contains(e));
                let k = choose|k: int| 0 <= k < edges.len() && edges[k] == e;
                assert(done.contains(edges[k].0));
                assert(marked[shape.children[p].0 as int]);
                assert(is_productive(rules, StateId(shape.children[p].0 as int as u32)));
            }
        }
    }
}

/// For every state below `state_count`, the rules with that result.
pub fn result_index(state_count: usize, rules: &Vec<RuleInput>) -> (index: Vec<Vec<usize>>)
    requires
        shapes_below(shapes(rules@), state_count as nat),
        state_count <= u32::MAX,
    ensures
        index@.len() == state_count,
        forall|s: int|
            0 <= s < state_count ==> (#[trigger] index@[s])@ == rules_with_result(
                shapes(rules@),
                StateId(s as u32),
            ),
{
    let ghost all = shapes(rules@);
    let mut index: Vec<Vec<usize>> = Vec::new();
    let mut s: usize = 0;
    while s < state_count
        invariant
            s <= state_count,
            index@.len() == s,
            forall|t: int| 0 <= t < s ==> (#[trigger] index@[t])@ == Seq::<usize>::empty(),
        decreases state_count - s,
    {
        index.push(Vec::new());
        s += 1;
    }
    let mut i: usize = 0;
    while i < rules.len()
        invariant
            i <= rules@.len(),
            all == shapes(rules@),
            state_count <= u32::MAX,
            shapes_below(all, state_count as nat),
            index@.len() == state_count,
            forall|t: int|
                0 <= t < state_count ==> (#[trigger] index@[t])@ == rules_with_result(
                    all.take(i as int),
                    StateId(t as u32),
                ),
        decreases rules@.len() - i,
    {
        let ghost before = index@;
        let result: usize = rules[i].result.index();
        assert(shape_below(all[i as int], state_count as nat));
        index[result].push(i);
        proof {
            let now = all.take(i + 1);
            assert(now.drop_last() =~= all.take(i as int));
            assert forall|t: int| 0 <= t < state_count implies (#[trigger] index@[t])@
                == rules_with_result(now, StateId(t as u32)) by {
                assert(before[t]@ == rules_with_result(all.take(i as int), StateId(t as u32)));
            }
        }
        i += 1;
    }
    assert(all.take(i as int) =~= all);
    index
}

pub proof fn lemma_rules_with_result(rules: Seq<RuleShape>, q: StateId, i: usize)
    requires
        rules.len() <= usize::MAX,
    ensures
        rules_with_result(rules, q).contains(i) <==> (i < rules.len() && rules[i as int].result
            == q),
    decreases rules.len(),
{
    if rules.len() > 0 {
        let rest = rules.drop_last();
        lemma_rules_with_result(rest, q, i);
        let old_list = rules_with_result(rest, q);
        let list = rules_with_result(rules, q);
        if old_list.contains(i) {
            let k = choose|k: int| 0 <= k < old_list.len() && old_list[k] == i;
            assert(list[k] == i);
        }
        if rules.last().result == q {
            assert(list[list.len() - 1] == rules.len() - 1);
            if list.contains(i) && i != rules.len() - 1 {
                let k = choose|k: int| 0 <= k < list.len() && list[k] == i;
                assert(old_list[k] == i);
            }
        }
    }
}

/// The states that are roots or lie below one through usable rules.
fn states_below(
    state_count: usize,
    rules: &Vec<RuleInput>,
    index: &Vec<Vec<usize>>,
    usable: &Vec<bool>,
    roots: Vec<usize>,
) -> (below: Vec<bool>)
    requires
        shapes_below(shapes(rules@), state_count as nat),
        state_count <= u32::MAX,
        usable@.len() == rules@.len(),
        forall|k: int| 0 <= k < roots@.len() ==> #[trigger] roots@[k] < state_count,
        index@.len() == state_count,
        forall|s: int|
            0 <= s < state_count ==> (#[trigger] index@[s])@ == rules_with_result(
                shapes(rules@),
                StateId(s as u32),
            ),
    ensures
        below@.len() == state_count,
        forall|s: int|
            0 <= s < state_count ==> #[trigger] below@[s] == is_below(
                shapes(rules@),
                root_set(roots@),
                usable@,
                StateId(s as u32),
            ),
{
    let ghost all = shapes(rules@);
    let ghost root_states = root_set(roots@);
    let rule_count: usize = rules.len();
    let mut below: Vec<bool> = vec![false; state_count];
    let mut stack: Vec<usize> = roots;
    proof {
        assert forall|k: int| 0 <= k < stack@.len() implies is_below(
            all,
            root_states,
            usable@,
            StateId(#[trigger] stack@[k] as u32),
        ) by {
            assert(root_states.contains(StateId(stack@[k] as u32)));
        }
        assert forall|q: StateId| #[trigger] root_states.contains(q) implies reached(
            below@,
            stack@,
            q,
        ) by {}
    }
    while stack.len() > 0
        invariant
            all == shapes(rules@),
            rules@.len() == rule_count,
            usable@.len() == rules@.len(),
            state_count <= u32::MAX,
            shapes_below(all, state_count as nat),
            index@.len() == state_count,
            forall|s: int|
                0 <= s < state_count ==> (#[trigger] index@[s])@ == rules_with_result(
                    all,
                    StateId(s as u32),
                ),
            below@.len() == state_count,
            forall|k: int|
                0 <= k < stack@.len() ==> #[trigger] stack@[k] < state_count && is_below(
                    all,
                    root_states,
                    usable@,
                    StateId(stack@[k] as u32),
                ),
            forall|s: int|
                0 <= s < state_count && #[trigger] below@[s] ==> is_below(
                    all,
                    root_states,
                    usable@,
                    StateId(s as u32),
                ),
            forall|q: StateId| #[trigger]
                root_states.contains(q) ==> reached(below@, stack@, q),
            forall|i: int|
                0 <= i < all.len() && usable@[i] && below@[(#[trigger] all[i]).result.0 as int]
                    ==> children_reached(all[i], below@, stack@),
        decreases worklist::unmarked(below@), stack@.len(),
    {
        let ghost stack_before = stack@;
        let ghost below_before = below@;
        let state: usize = stack.pop().unwrap();
        let ghost rest = stack@;
        if below[state] {
            proof {
                assert(below@ =~= below@.update(state as int, true));
                assert forall|q: StateId| reached(below@, stack_before, q) implies reached(
                    below@,
                    stack@,
                    q,
                ) by {
                    lemma_reached_pop(below@, below@, stack_before, stack@, q);
                }
                assert forall|i: int|
                    0 <= i < all.len() && usable@[i] && below@[(
                    #[trigger] all[i]).result.0 as int] implies children_reached(
                    all[i],
                    below@,
                    stack@,
                ) by {
                    assert(children_reached(all[i], below@, stack_before));
                }
            }
            continue ;
        }
        below.set(state, true);
        proof {
            worklist::lemma_unmarked_update(below_before, state as int);
            assert(stack_before[stack_before.len() - 1] == state);
            assert forall|q: StateId| reached(below_before, stack_before, q) implies reached(
                below@,
                rest,
                q,
            ) by {
                lemma_reached_pop(below_before, below@, stack_before, rest, q);
            }
        }
        let mut k: usize = 0;
        while k < index[state].len()
            invariant
                all == shapes(rules@),
                rules@.len() == rule_count,
                usable@.len() == rules@.len(),
                state < state_count,
                state_count <= u32::MAX,
                shapes_below(all, state_count as nat),
                index@.len() == state_count,
                index@[state as int]@ == rules_with_result(all, StateId(state as u32)),
                k <= index@[state as int]@.len(),
                below@.len() == state_count,
                below@ == below_before.update(state as int, true),
                !below_before[state as int],
                is_below(all, root_states, usable@, StateId(state as u32)),
                forall|j: int|
                    0 <= j < stack@.len() ==> #[trigger] stack@[j] < state_count && is_below(
                        all,
                        root_states,
                        usable@,
                        StateId(stack@[j] as u32),
                    ),
                extends(rest, stack@),
                forall|j: int|
                    0 <= j < k && usable@[#[trigger] index@[state as int]@[j] as int]
                        ==> children_reached(
                        all[index@[state as int]@[j] as int],
                        below@,
                        stack@,
                    ),
            decreases index@[state as int]@.len() - k,
        {
            let rule: usize = index[state][k];
            proof {
                assert(index@[state as int]@.contains(rule));
                lemma_rules_with_result(all, StateId(state as u32), rule);
                assert(shape_below(all[rule as int], state_count as nat));
            }
            if usable[rule] {
                let children = rules[rule].children;
                let ghost stack_now = stack@;
                proof {
                    lemma_children_below(all, root_states, usable@, rule as int);
                }
                let mut p: usize = 0;
                while p < children.len()
                    invariant
                        p <= children@.len(),
                        rule < all.len(),
                        all[rule as int].children == children@,
                        state_count <= u32::MAX,
                        shape_below(all[rule as int], state_count as nat),
                        forall|r: int|
                            0 <= r < all[rule as int].children.len() ==> is_below(
                                all,
                                root_states,
                                usable@,
                                #[trigger] all[rule as int].children[r],
                            ),
                        forall|j: int|
                            0 <= j < stack@.len() ==> #[trigger] stack@[j] < state_count
                                && is_below(
                                all,
                                root_states,
                                usable@,
                                StateId(stack@[j] as u32),
                            ),
                        extends(stack_now, stack@),
                        forall|r: int|
                            0 <= r < p ==> reached(
                                below@,
                                stack@,
                                #[trigger] all[rule as int].children[r],
                            ),
                    decreases children@.len() - p,
                {
                    let ghost stack_then = stack@;
                    let child = children[p];
                    assert(child == all[rule as int].children[p as int]);
                    stack.push(child.index());
                    proof {
                        assert(stack@[stack@.len() - 1] == child.0);
                        assert forall|r: int| 0 <= r < p implies reached(
                            below@,
                            stack@,
                            #[trigger] all[rule as int].children[r],
                        ) by {
                            lemma_reached_extend(
                                below@,
                                stack_then,
                                stack@,
                                all[rule as int].children[r],
                            );
                        }
                    }
                    p += 1;
                }
                proof {
                    assert forall|j: int|
                        0 <= j < k && usable@[
                        #[trigger] index@[state as int]@[j] as int] implies children_reached(
                        all[index@[state as int]@[j] as int],
                        below@,
                        stack@,
                    ) by {
                        lemma_children_extend(
                            all[index@[state as int]@[j] as int],
                            below@,
                            stack_now,
                            stack@,
                        );
                    }
                    assert(extends(rest, stack@));
                }
            }
            k += 1;
        }
        proof {
            assert forall|q: StateId| #[trigger] root_states.contains(q) implies reached(
                below@,
                stack@,
                q,
            ) by {
                assert(reached(below@, rest, q));
                lemma_reached_extend(below@, rest, stack@, q);
            }
            assert forall|i: int|
                0 <= i < all.len() && usable@[i] && below@[(
                #[trigger] all[i]).result.0 as int] implies children_reached(
                all[i],
                below@,
                stack@,
            ) by {
                if all[i].result.0 == state {
                    lemma_rules_with_result(all, StateId(state as u32), i as usize);
                    let list = index@[state as int]@;
                    assert(list.contains(i as usize));
                    let j = choose|j: int| 0 <= j < list.len() && list[j] == i as usize;
                    assert(usable@[index@[state as int]@[j] as int]);
                } else {
                    assert(below_before[all[i].result.0 as int]);
                    assert(children_reached(all[i], below_before, stack_before));
                    assert forall|r: int| 0 <= r < all[i].children.len() implies reached(
                        below@,
                        stack@,
                        #[trigger] all[i].children[r],
                    ) by {
                        assert(reached(below_before, stack_before, all[i].children[r]));
                        lemma_reached_extend(below@, rest, stack@, all[i].children[r]);
                    }
                }
            }
        }
    }
    proof {
        let found = Set::new(|q: StateId| q.0 < state_count && below@[q.0 as int]);
        assert forall|q: StateId| #[trigger] root_states.contains(q) implies found.contains(q) by {
            assert(reached(below@, stack@, q));
        }
        assert forall|i: int|
            0 <= i < all.len() && usable@[i] && found.contains(
                all[i].result,
            ) implies children_in(#[trigger] all[i], found) by {
            assert(children_reached(all[i], below@, stack@));
            assert forall|r: int| 0 <= r < all[i].children.len() implies found.contains(
                #[trigger] all[i].children[r],
            ) by {
                assert(reached(below@, stack@, all[i].children[r]));
            }
        }
        assert(below_closed(all, root_states, usable@, found));
        assert forall|s: int| 0 <= s < state_count implies #[trigger] below@[s] == is_below(
            all,
            root_states,
            usable@,
            StateId(s as u32),
        ) by {
            if is_below(all, root_states, usable@, StateId(s as u32)) {
                assert(found.contains(StateId(s as u32)));
            }
        }
    }
    below
}

/// The states whose positions are listed.
pub open spec fn root_set(roots: Seq<usize>) -> Set<StateId> {
    Set::new(|q: StateId| roots.contains(q.0 as usize))
}

/// Whether `q` is marked or waits to be.
pub open spec fn reached(marked: Seq<bool>, stack: Seq<usize>, q: StateId) -> bool {
    (q.0 < marked.len() && marked[q.0 as int]) || stack.contains(q.0 as usize)
}

/// Whether all children of a rule are marked or wait to be.
pub open spec fn children_reached(
    shape: RuleShape,
    marked: Seq<bool>,
    stack: Seq<usize>,
) -> bool {
    forall|r: int| 0 <= r < shape.children.len() ==> reached(
        marked,
        stack,
        #[trigger] shape.children[r],
    )
}

/// Whether `b` continues `a`.
pub open spec fn extends(a: Seq<usize>, b: Seq<usize>) -> bool {
    a.len() <= b.len() && forall|i: int| 0 <= i < a.len() ==> #[trigger] b[i] == a[i]
}

proof fn lemma_reached_extend(marked: Seq<bool>, a: Seq<usize>, b: Seq<usize>, q: StateId)
    requires
        reached(marked, a, q),
        extends(a, b),
    ensures
        reached(marked, b, q),
{
    if a.contains(q.0 as usize) {
        let k = choose|k: int| 0 <= k < a.len() && a[k] == q.0 as usize;
        assert(b[k] == q.0 as usize);
    }
}

proof fn lemma_children_extend(
    shape: RuleShape,
    marked: Seq<bool>,
    a: Seq<usize>,
    b: Seq<usize>,
)
    requires
        children_reached(shape, marked, a),
        extends(a, b),
    ensures
        children_reached(shape, marked, b),
{
    assert forall|r: int| 0 <= r < shape.children.len() implies reached(
        marked,
        b,
        #[trigger] shape.children[r],
    ) by {
        lemma_reached_extend(marked, a, b, shape.children[r]);
    }
}

proof fn lemma_reached_pop(
    marked: Seq<bool>,
    now: Seq<bool>,
    stack: Seq<usize>,
    rest: Seq<usize>,
    q: StateId,
)
    requires
        reached(marked, stack, q),
        stack.len() > 0,
        rest == stack.drop_last(),
        stack.last() < marked.len(),
        now == marked.update(stack.last() as int, true),
    ensures
        reached(now, rest, q),
{
    if stack.contains(q.0 as usize) {
        let k = choose|k: int| 0 <= k < stack.len() && stack[k] == q.0 as usize;
        if k < stack.len() - 1 {
            assert(rest[k] == q.0 as usize);
        }
    }
}

/// The children of a usable rule lie below the roots when its result does.
pub proof fn lemma_children_below(
    rules: Seq<RuleShape>,
    roots: Set<StateId>,
    usable: Seq<bool>,
    i: int,
)
    requires
        0 <= i < rules.len(),
        usable[i],
        is_below(rules, roots, usable, rules[i].result),
    ensures
        forall|p: int|
            0 <= p < rules[i].children.len() ==> is_below(
                rules,
                roots,
                usable,
                #[trigger] rules[i].children[p],
            ),
{
    assert forall|p: int| 0 <= p < rules[i].children.len() implies is_below(
        rules,
        roots,
        usable,
        #[trigger] rules[i].children[p],
    ) by {
        assert forall|s: Set<StateId>| #[trigger]
            below_closed(rules, roots, usable, s) implies s.contains(rules[i].children[p]) by {
            assert(children_in(rules[i], s));
        }
    }
}

/// Whether `edges` leads from every child of a live rule to its result, and
/// nowhere else.
pub open spec fn live_edges_of(
    rules: Seq<RuleShape>,
    live: Seq<bool>,
    edges: Seq<(usize, usize)>,
) -> bool {
    &&& forall|k: int| 0 <= k < edges.len() ==> live_edge(rules, live, #[trigger] edges[k])
    &&& forall|i: int, p: int|
        0 <= i < rules.len() && live[i] && 0 <= p < rules[i].children.len() ==> edges.contains(
            (#[trigger] rules[i].children[p].0 as usize, rules[i].result.0 as usize),
        )
}

/// Whether an edge leads from a child of a live rule to its result.
pub open spec fn live_edge(rules: Seq<RuleShape>, live: Seq<bool>, e: (usize, usize)) -> bool {
    exists|i: int, p: int|
        0 <= i < rules.len() && live[i] && 0 <= p < rules[i].children.len()
            && #[trigger] rules[i].children[p].0 == e.0 && rules[i].result.0 == e.1
}

fn live_edges(rules: &Vec<RuleInput>, live: &Vec<bool>) -> (edges: Vec<(usize, usize)>)
    requires
        live@.len() == rules@.len(),
    ensures
        live_edges_of(shapes(rules@), live@, edges@),
{
    let mut edges: Vec<(usize, usize)> = Vec::new();
    let ghost all = shapes(rules@);
    let mut i: usize = 0;
    while i < rules.len()
        invariant
            i <= rules@.len(),
            all == shapes(rules@),
            live@.len() == rules@.len(),
            forall|k: int|
                0 <= k < edges@.len() ==> live_edge(all, live@, #[trigger] edges@[k]),
            forall|j: int, p: int|
                0 <= j < i && live@[j] && 0 <= p < all[j].children.len() ==> edges@.contains(
                    (#[trigger] all[j].children[p].0 as usize, all[j].result.0 as usize),
                ),
        decreases rules@.len() - i,
    {
        if live[i] {
            let children = rules[i].children;
            let result: usize = rules[i].result.index();
            let mut p: usize = 0;
            while p < children.len()
                invariant
                    i < rules@.len(),
                    p <= children@.len(),
                    all == shapes(rules@),
                    live@.len() == rules@.len(),
                    live@[i as int],
                    all[i as int].children == children@,
                    all[i as int].result.0 == result,
                    forall|k: int|
                        0 <= k < edges@.len() ==> live_edge(all, live@, #[trigger] edges@[k]),
                    forall|j: int, r: int|
                        0 <= j < i && live@[j] && 0 <= r < all[j].children.len()
                            ==> edges@.contains(
                            (#[trigger] all[j].children[r].0 as usize, all[j].result.0 as usize),
                        ),
                    forall|r: int|
                        0 <= r < p ==> edges@.contains(
                            (#[trigger] all[i as int].children[r].0 as usize, result),
                        ),
                decreases children@.len() - p,
            {
                let ghost before = edges@;
                edges.push((children[p].index(), result));
                proof {
                    assert(all[i as int].children[p as int].0 == edges@.last().0);
                    assert(live_edge(all, live@, edges@.last()));
                    assert forall|e: (usize, usize)| before.contains(e) implies edges@.contains(
                        e,
                    ) by {
                        let k = choose|k: int| 0 <= k < before.len() && before[k] == e;
                        assert(edges@[k] == e);
                    }
                    assert(edges@[edges@.len() - 1] == (children@[p as int].0 as usize, result));
                }
                p += 1;
            }
        }
        i += 1;
    }
    edges
}

/// Whether the prefix `order` of a child-before-parent order, the queue and the
/// counts fit together.
spec fn order_ok(
    edges: Seq<(usize, usize)>,
    relevant: Seq<bool>,
    counts: Seq<usize>,
    popped: Seq<bool>,
    ready: Seq<usize>,
    order: Seq<StateId>,
) -> bool {
    let n = relevant.len();
    let done = Set::new(|s: usize| s < n && popped[s as int]);
    &&& counts.len() == n && popped.len() == n
    &&& forall|d: usize|
        d < n ==> #[trigger] counts[d as int] == release::pending(edges, done, d)
    &&& forall|s: usize| s < n && #[trigger] popped[s as int] ==> relevant[s as int] && counts[s as int] == 0
    &&& ready.no_duplicates()
    &&& forall|j: int|
        0 <= j < ready.len() ==> {
            &&& (#[trigger] ready[j]) < n
            &&& !popped[ready[j] as int]
            &&& relevant[ready[j] as int]
            &&& counts[ready[j] as int] == 0
        }
    &&& forall|s: usize|
        s < n && #[trigger] relevant[s as int] && counts[s as int] == 0 ==> popped[s as int]
            || ready.contains(s)
    &&& order.no_duplicates()
    &&& order.len() + worklist::unmarked(popped) == n
    &&& forall|s: usize|
        s < n ==> (#[trigger] popped[s as int] <==> order.contains(StateId(s as u32)))
    &&& forall|b: int| 0 <= b < order.len() ==> (#[trigger] order[b]).0 < n
    &&& forall|k: int, b: int|
        0 <= k < edges.len() && 0 <= b < order.len() && #[trigger] edges[k].1 == (
        #[trigger] order[b]).0 ==> exists|a: int|
            0 <= a < b && #[trigger] order[a].0 == edges[k].0
}

proof fn lemma_unmarked_none(n: nat)
    ensures
        worklist::unmarked(Seq::new(n, |i: int| false)) == n,
    decreases n,
{
    if n > 0 {
        lemma_unmarked_none((n - 1) as nat);
        assert(Seq::new(n, |i: int| false).drop_last() =~= Seq::new(
            (n - 1) as nat,
            |i: int| false,
        ));
    }
}

/// Number of marks that are set.
fn count_marks(marks: &Vec<bool>) -> (n: usize)
    ensures
        n + worklist::unmarked(marks@) == marks@.len(),
{
    let mut n: usize = 0;
    let mut i: usize = 0;
    assert(marks@.take(0) =~= Seq::empty());
    while i < marks.len()
        invariant
            i <= marks@.len(),
            n <= i,
            n + worklist::unmarked(marks@.take(i as int)) == i,
        decreases marks@.len() - i,
    {
        assert(marks@.take(i + 1).drop_last() =~= marks@.take(i as int));
        if marks[i] {
            n += 1;
        }
        i += 1;
    }
    assert(marks@.take(i as int) =~= marks@);
    n
}

/// Lists the relevant states so that the children of a live rule come before its
/// result, if that can be done.
fn dependency_order(
    state_count: usize,
    relevant: &Vec<bool>,
    edges: &Vec<(usize, usize)>,
) -> (order: Vec<StateId>)
    requires
        state_count <= u32::MAX,
        relevant@.len() == state_count,
        release::sources_below(edges@, state_count as nat),
        release::targets_below(edges@, state_count as nat),
        forall|k: int|
            0 <= k < edges@.len() ==> relevant@[(#[trigger] edges@[k]).1 as int],
    ensures
        exists|counts: Seq<usize>, popped: Seq<bool>|
            order_ok(edges@, relevant@, counts, popped, Seq::empty(), order@),
{
    let out = release::adjacency(state_count, edges);
    let mut counts = release::in_counts(state_count, edges);
    let mut ready: VecDeque<usize> = VecDeque::new();
    let mut order: Vec<StateId> = Vec::new();
    let ghost mut popped: Seq<bool> = Seq::new(state_count as nat, |i: int| false);
    let ghost mut done: Set<usize> = Set::empty();
    let mut s: usize = 0;
    while s < state_count
        invariant
            s <= state_count,
            relevant@.len() == state_count,
            counts@.len() == state_count,
            forall|t: usize|
                #[trigger] ready@.contains(t) <==> (t < s && relevant@[t as int]
                    && counts@[t as int] == 0),
            ready@.no_duplicates(),
        decreases state_count - s,
    {
        let ghost before = ready@;
        if relevant[s] && counts[s] == 0 {
            ready.push_back(s);
            proof {
                assert(!before.contains(s));
                assert forall|t: usize| #[trigger] ready@.contains(t) <==> (t < s + 1
                    && relevant@[t as int] && counts@[t as int] == 0) by {
                    assert(ready@[ready@.len() - 1] == s);
                    if before.contains(t) {
                        let j = choose|j: int| 0 <= j < before.len() && before[j] == t;
                        assert(ready@[j] == t);
                    }
                    if ready@.contains(t) && t != s {
                        let j = choose|j: int| 0 <= j < ready@.len() && ready@[j] == t;
                        assert(before[j] == t);
                    }
                }
                assert forall|a: int, b: int|
                    0 <= a < ready@.len() && 0 <= b < ready@.len() && a != b implies ready@[a]
                    != ready@[b] by {
                    if a == before.len() {
                        assert(before.contains(before[b]));
                    } else if b == before.len() {
                        assert(before.contains(before[a]));
                    }
                }
            }
        }
        s += 1;
    }
    proof {
        lemma_unmarked_none(state_count as nat);
        assert(Set::new(|t: usize| t < state_count && popped[t as int]) =~= Set::<usize>::empty());
        assert forall|j: int| 0 <= j < ready@.len() implies {
            &&& (#[trigger] ready@[j]) < state_count
            &&& relevant@[ready@[j] as int]
            &&& counts@[ready@[j] as int] == 0
        } by {
            assert(ready@.contains(ready@[j]));
        }
        assert(order_ok(edges@, relevant@, counts@, popped, ready@, order@));
    }
    while ready.len() > 0
        invariant
            state_count <= u32::MAX,
            relevant@.len() == state_count,
            release::targets_below(edges@, state_count as nat),
            forall|k: int|
                0 <= k < edges@.len() ==> relevant@[(#[trigger] edges@[k]).1 as int],
            out@.len() == state_count,
            forall|t: usize|
                t < state_count ==> (#[trigger] out@[t as int])@ == release::targets(edges@, t),
            done == Set::new(|t: usize| t < state_count && popped[t as int]),
            order_ok(edges@, relevant@, counts@, popped, ready@, order@),
        decreases worklist::unmarked(popped),
    {
        let ghost ready_before = ready@;
        let ghost counts_before = counts@;
        let ghost popped_before = popped;
        let ghost order_before = order@;
        let state: usize = ready.pop_front().unwrap();
        order.push(StateId(state as u32));
        proof {
            assert(ready_before[0] == state);
            release::lemma_targets_below(edges@, state, state_count as nat);
            assert forall|d: usize| d < state_count implies release::count_eq(
                out@[state as int]@,
                d,
            ) <= #[trigger] counts@[d as int] by {
                release::lemma_pending_insert(edges@, done, state, d);
            }
        }
        let released = release::discharge(&mut counts, &out[state]);
        proof {
            popped = popped.update(state as int, true);
            worklist::lemma_unmarked_update(popped_before, state as int);
            let now = Set::new(|t: usize| t < state_count && popped[t as int]);
            assert(now =~= done.insert(state));
            assert forall|d: usize| d < state_count implies #[trigger] counts@[d as int]
                == release::pending(edges@, now, d) by {
                release::lemma_pending_insert(edges@, done, state, d);
                assert(counts_before[d as int] == release::pending(edges@, done, d));
            }
            lemma_order_push(
                edges@,
                relevant@,
                counts_before,
                popped_before,
                ready_before,
                order_before,
                state,
            );
            done = now;
        }
        let ghost ready_now = ready@;
        let mut k: usize = 0;
        while k < released.len()
            invariant
                k <= released@.len(),
                ready@ == ready_now + released@.take(k as int),
            decreases released@.len() - k,
        {
            ready.push_back(released[k]);
            proof {
                assert(released@.take(k + 1) =~= released@.take(k as int).push(
                    released@[k as int],
                ));
                assert(ready@ =~= ready_now + released@.take(k + 1));
            }
            k += 1;
        }
        proof {
            assert(released@.take(k as int) =~= released@);
            assert(ready_now =~= ready_before.skip(1));
            lemma_order_released(
                edges@,
                relevant@,
                counts_before,
                counts@,
                popped_before,
                ready_before,
                order_before,
                order@,
                released@,
                state,
            );
        }
    }
    assert(ready@ =~= Seq::empty());
    order
}

/// Adding the first ready state to the order keeps its children before it.
proof fn lemma_order_push(
    edges: Seq<(usize, usize)>,
    relevant: Seq<bool>,
    counts: Seq<usize>,
    popped: Seq<bool>,
    ready: Seq<usize>,
    order: Seq<StateId>,
    state: usize,
)
    requires
        order_ok(edges, relevant, counts, popped, ready, order),
        relevant.len() <= u32::MAX,
        ready.len() > 0,
        state == ready[0],
    ensures
        state < relevant.len(),
        !popped[state as int],
        ({
            let next = order.push(StateId(state as u32));
            &&& next.no_duplicates()
            &&& forall|s: usize|
                s < relevant.len() ==> (#[trigger] popped.update(state as int, true)[s as int]
                    <==> next.contains(StateId(s as u32)))
            &&& forall|b: int| 0 <= b < next.len() ==> (#[trigger] next[b]).0 < relevant.len()
            &&& forall|k: int, b: int|
                0 <= k < edges.len() && 0 <= b < next.len() && #[trigger] edges[k].1 == (
                #[trigger] next[b]).0 ==> exists|a: int|
                    0 <= a < b && #[trigger] next[a].0 == edges[k].0
        }),
{
    let n = relevant.len();
    let done = Set::new(|s: usize| s < n && popped[s as int]);
    let next = order.push(StateId(state as u32));
    assert(ready[0] < n);
    assert(!popped[state as int]);
    assert(!order.contains(StateId(state as u32)));
    assert(next.no_duplicates()) by {
        assert forall|a: int, b: int| 0 <= a < next.len() && 0 <= b < next.len() && a
            != b implies next[a] != next[b] by {
            if a == order.len() {
                assert(order.contains(order[b]));
            } else if b == order.len() {
                assert(order.contains(order[a]));
            }
        }
    }
    assert forall|s: usize| s < n implies (#[trigger] popped.update(
        state as int,
        true,
    )[s as int] <==> next.contains(StateId(s as u32))) by {
        if s == state {
            assert(next[next.len() - 1] == StateId(s as u32));
        } else {
            assert(popped[s as int] <==> order.contains(StateId(s as u32)));
            if order.contains(StateId(s as u32)) {
                let j = choose|j: int| 0 <= j < order.len() && order[j] == StateId(s as u32);
                assert(next[j] == StateId(s as u32));
            }
            if next.contains(StateId(s as u32)) {
                let j = choose|j: int| 0 <= j < next.len() && next[j] == StateId(s as u32);
                assert(order[j] == StateId(s as u32));
            }
        }
    }
    assert forall|k: int, b: int|
        0 <= k < edges.len() && 0 <= b < next.len() && #[trigger] edges[k].1 == (
        #[trigger] next[b]).0 implies exists|a: int|
        0 <= a < b && #[trigger] next[a].0 == edges[k].0 by {
        if b < order.len() {
            assert(order[b] == next[b]);
            let a = choose|a: int| 0 <= a < b && #[trigger] order[a].0 == edges[k].0;
            assert(next[a].0 == edges[k].0);
        } else {
            release::lemma_pending_zero(edges, done, state);
            assert(counts[state as int] == release::pending(edges, done, state));
            assert(edges[k].1 == state);
            assert(done.contains(edges[k].0));
            let q = StateId(edges[k].0 as u32);
            assert(popped[edges[k].0 as int]);
            assert(order.contains(q));
            let a = choose|a: int| 0 <= a < order.len() && order[a] == q;
            assert(next[a].0 == edges[k].0);
        }
    }
}

/// Queueing the released states completes the step.
proof fn lemma_order_released(
    edges: Seq<(usize, usize)>,
    relevant: Seq<bool>,
    counts: Seq<usize>,
    counts_now: Seq<usize>,
    popped: Seq<bool>,
    ready: Seq<usize>,
    order: Seq<StateId>,
    order_now: Seq<StateId>,
    released: Seq<usize>,
    state: usize,
)
    requires
        relevant.len() <= u32::MAX,
        order_ok(edges, relevant, counts, popped, ready, order),
        ready.len() > 0,
        state == ready[0],
        order_now == order.push(StateId(state as u32)),
        release::targets_below(edges, relevant.len()),
        forall|k: int| 0 <= k < edges.len() ==> relevant[(#[trigger] edges[k]).1 as int],
        counts_now.len() == relevant.len(),
        forall|d: usize|
            d < relevant.len() ==> #[trigger] counts_now[d as int] == release::pending(
                edges,
                Set::new(
                    |s: usize| s < relevant.len() && popped.update(state as int, true)[s as int],
                ),
                d,
            ),
        forall|d: usize|
            d < relevant.len() ==> #[trigger] counts_now[d as int] <= counts[d as int],
        forall|d: usize| #[trigger]
            released.contains(d) <==> (d < relevant.len() && counts[d as int] > 0
                && counts_now[d as int] == 0),
        released.no_duplicates(),
    ensures
        order_ok(
            edges,
            relevant,
            counts_now,
            popped.update(state as int, true),
            ready.skip(1) + released,
            order_now,
        ),
{
    let n = relevant.len();
    let done = Set::new(|s: usize| s < n && popped[s as int]);
    let rest = ready.skip(1);
    let queue = rest + released;
    let popped_now = popped.update(state as int, true);
    lemma_order_push(edges, relevant, counts, popped, ready, order, state);
    worklist::lemma_unmarked_update(popped, state as int);
    assert(ready[0] == state && counts[state as int] == 0);
    assert forall|j: int| 0 <= j < queue.len() implies {
        &&& (#[trigger] queue[j]) < n
        &&& !popped_now[queue[j] as int]
        &&& relevant[queue[j] as int]
        &&& counts_now[queue[j] as int] == 0
    } by {
        if j < rest.len() {
            assert(queue[j] == ready[j + 1]);
            assert(ready[j + 1] != ready[0]);
            assert(counts_now[queue[j] as int] <= counts[queue[j] as int]);
        } else {
            let d = released[j - rest.len()];
            assert(queue[j] == d);
            assert(released.contains(d));
            if !relevant[d as int] {
                lemma_no_edges(edges, relevant, done, d);
                assert(counts[d as int] == release::pending(edges, done, d));
            }
            if popped[d as int] {
                assert(counts[d as int] == 0);
            }
        }
    }
    assert(queue.no_duplicates()) by {
        assert forall|a: int, b: int| 0 <= a < queue.len() && 0 <= b < queue.len() && a
            < b implies queue[a] != queue[b] by {
            if b < rest.len() {
                assert(queue[a] == ready[a + 1] && queue[b] == ready[b + 1]);
            } else if a >= rest.len() {
                assert(queue[a] == released[a - rest.len()] && queue[b] == released[b
                    - rest.len()]);
            } else {
                assert(queue[a] == ready[a + 1]);
                assert(counts[ready[a + 1] as int] == 0);
                assert(released.contains(released[b - rest.len()]));
            }
        }
    }
    assert forall|s: usize|
        s < n && #[trigger] relevant[s as int] && counts_now[s as int]
            == 0 implies popped_now[s as int] || queue.contains(s) by {
        if counts[s as int] > 0 {
            assert(released.contains(s));
            let j = choose|j: int| 0 <= j < released.len() && released[j] == s;
            assert(queue[rest.len() + j] == s);
        } else {
            assert(popped[s as int] || ready.contains(s));
            if ready.contains(s) && s != state {
                let j = choose|j: int| 0 <= j < ready.len() && ready[j] == s;
                assert(queue[j - 1] == s);
            }
        }
    }
    assert forall|s: usize| s < n && #[trigger] popped_now[s as int] implies relevant[s as int]
        && counts_now[s as int] == 0 by {
        assert(counts_now[s as int] <= counts[s as int]);
        if s != state {
            assert(popped[s as int]);
        } else {
            assert(relevant[ready[0] as int]);
        }
    }
}

proof fn lemma_no_edges(
    edges: Seq<(usize, usize)>,
    relevant: Seq<bool>,
    done: Set<usize>,
    d: usize,
)
    requires
        forall|k: int| 0 <= k < edges.len() ==> relevant[(#[trigger] edges[k]).1 as int],
        !relevant[d as int],
    ensures
        release::pending(edges, done, d) == 0,
{
    release::lemma_pending_zero(edges, done, d);
}

/// Only states that the rules and roots mention lie below the roots.
pub proof fn lemma_below_bounded(
    rules: Seq<RuleShape>,
    roots: Set<StateId>,
    usable: Seq<bool>,
    n: nat,
    q: StateId,
)
    requires
        shapes_below(rules, n),
        forall|r: StateId| #[trigger] roots.contains(r) ==> r.0 < n,
        is_below(rules, roots, usable, q),
    ensures
        q.0 < n,
{
    let s = Set::new(|r: StateId| r.0 < n);
    assert forall|i: int|
        0 <= i < rules.len() && usable[i] && s.contains(rules[i].result) implies children_in(
        #[trigger] rules[i],
        s,
    ) by {
        assert(shape_below(rules[i], n));
    }
    assert(below_closed(rules, roots, usable, s));
}

/// A complete order lists children first and rules cycles out; an incomplete one
/// shows a cycle.
proof fn lemma_order_complete(
    rules: Seq<RuleShape>,
    accepting: Set<StateId>,
    live: Seq<bool>,
    edges: Seq<(usize, usize)>,
    relevant: Seq<bool>,
    counts: Seq<usize>,
    popped: Seq<bool>,
    order: Seq<StateId>,
)
    requires
        relevant.len() <= u32::MAX,
        shapes_below(rules, relevant.len()),
        forall|q: StateId| #[trigger] accepting.contains(q) ==> q.0 < relevant.len(),
        live.len() == rules.len(),
        forall|i: int|
            0 <= i < rules.len() ==> #[trigger] live[i] == is_live(rules, accepting, i),
        forall|s: int|
            0 <= s < relevant.len() ==> #[trigger] relevant[s] == is_relevant(
                rules,
                accepting,
                StateId(s as u32),
            ),
        live_edges_of(rules, live, edges),
        order_ok(edges, relevant, counts, popped, Seq::empty(), order),
    ensures
        order.len() + worklist::unmarked(relevant) == relevant.len() ==> is_child_first(
            rules,
            accepting,
            order,
        ) && !is_cyclic(rules, accepting),
        order.len() + worklist::unmarked(relevant) != relevant.len() ==> is_cyclic(
            rules,
            accepting,
        ),
{
    let n = relevant.len();
    let roots = productive_roots(rules, accepting);
    let mask = productive_mask(rules);
    let done = Set::new(|s: usize| s < n && popped[s as int]);
    assert forall|i: int| 0 <= i < popped.len() && #[trigger] popped[i] implies relevant[i] by {
        assert(popped[i as usize as int]);
    }
    worklist::lemma_unmarked_equal(popped, relevant);
    if order.len() + worklist::unmarked(relevant) == n {
        assert(popped == relevant);
        assert forall|q: StateId| #[trigger] order.contains(q) <==> is_relevant(
            rules,
            accepting,
            q,
        ) by {
            if is_relevant(rules, accepting, q) {
                lemma_below_bounded(rules, roots, mask, n, q);
            }
            if order.contains(q) {
                let b = choose|b: int| 0 <= b < order.len() && order[b] == q;
                assert(order[b].0 < n);
            }
            if q.0 < n {
                assert(popped[q.0 as usize as int] <==> order.contains(
                    StateId(q.0 as usize as u32),
                ));
                assert(relevant[q.0 as int] == is_relevant(
                    rules,
                    accepting,
                    StateId(q.0 as int as u32),
                ));
            }
        }
        assert forall|i: int, p: int, a: int, b: int|
            0 <= i < rules.len() && is_live(rules, accepting, i) && 0 <= p
                < rules[i].children.len() && 0 <= a < order.len() && 0 <= b < order.len()
                && #[trigger] order[a] == #[trigger] rules[i].children[p] && #[trigger] order[b]
                == rules[i].result implies a < b by {
            assert(live[i]);
            let e = (rules[i].children[p].0 as usize, rules[i].result.0 as usize);
            assert(edges.contains(e));
            let k = choose|k: int| 0 <= k < edges.len() && edges[k] == e;
            assert(edges[k].1 == order[b].0);
            let c = choose|c: int| 0 <= c < b && #[trigger] order[c].0 == edges[k].0;
            assert(order[c] == order[a]);
        }
        assert forall|c: Set<StateId>| !cyclic_core(rules, accepting, c) by {
            if cyclic_core(rules, accepting, c) {
                lemma_core_avoids_order(rules, accepting, order, c, order.len() as int);
                let q = choose|q: StateId| c.contains(q);
                assert(depends_within(rules, accepting, c, q));
                assert(is_relevant(rules, accepting, q));
                assert(order.contains(q));
                let b = choose|b: int| 0 <= b < order.len() && order[b] == q;
                assert(!c.contains(order[b]));
            }
        }
    } else {
        let c = Set::new(
            |q: StateId| q.0 < n && relevant[q.0 as int] && !popped[q.0 as int],
        );
        assert(exists|q: StateId| c.contains(q)) by {
            if forall|q: StateId| !c.contains(q) {
                assert forall|i: int| 0 <= i < n && #[trigger] relevant[i] implies popped[i] by {
                    assert(!c.contains(StateId(i as u32)));
                }
                worklist::lemma_unmarked_equal(relevant, popped);
            }
        }
        assert forall|q: StateId| #[trigger] c.contains(q) implies depends_within(
            rules,
            accepting,
            c,
            q,
        ) by {
            let d = q.0 as usize;
            assert(relevant[d as int]);
            assert(counts[d as int] == release::pending(edges, done, d));
            release::lemma_pending_zero(edges, done, d);
            let k = choose|k: int|
                0 <= k < edges.len() && (#[trigger] edges[k]).1 == d && !done.contains(
                    edges[k].0,
                );
            assert(live_edge(rules, live, edges[k]));
            let (i, p) = choose|i: int, p: int|
                0 <= i < rules.len() && live[i] && 0 <= p < rules[i].children.len()
                    && #[trigger] rules[i].children[p].0 == edges[k].0 && rules[i].result.0
                    == edges[k].1;
            assert(shape_below(rules[i], n));
            assert(is_live(rules, accepting, i));
            lemma_children_below(rules, roots, mask, i);
            let child = rules[i].children[p];
            assert(is_relevant(rules, accepting, child));
            assert(relevant[child.0 as int] == is_relevant(
                rules,
                accepting,
                StateId(child.0 as int as u32),
            ));
            assert(c.contains(rules[i].children[p]));
            assert(rules[i].result == q);
        }
        assert(cyclic_core(rules, accepting, c));
    }
}

/// No state of a child-first order lies in a cyclic core.
proof fn lemma_core_avoids_order(
    rules: Seq<RuleShape>,
    accepting: Set<StateId>,
    order: Seq<StateId>,
    c: Set<StateId>,
    k: int,
)
    requires
        is_child_first(rules, accepting, order),
        cyclic_core(rules, accepting, c),
        0 <= k <= order.len(),
    ensures
        forall|b: int| 0 <= b < k ==> !c.contains(#[trigger] order[b]),
    decreases k,
{
    if k > 0 {
        lemma_core_avoids_order(rules, accepting, order, c, k - 1);
        let b = k - 1;
        if c.contains(order[b]) {
            assert(depends_within(rules, accepting, c, order[b]));
            let (i, p) = choose|i: int, p: int|
                0 <= i < rules.len() && is_live(rules, accepting, i) && rules[i].result == order[b]
                    && 0 <= p < rules[i].children.len() && c.contains(
                    #[trigger] rules[i].children[p],
                );
            lemma_children_below(
                rules,
                productive_roots(rules, accepting),
                productive_mask(rules),
                i,
            );
            assert(is_relevant(rules, accepting, rules[i].children[p]));
            assert(order.contains(rules[i].children[p]));
            let a = choose|a: int| 0 <= a < order.len() && order[a] == rules[i].children[p];
            assert(a < b);
            assert(!c.contains(order[a]));
        }
    }
}

/// The accepting states that are listed.
pub open spec fn listed(accepting: Seq<StateId>) -> Set<StateId> {
    Set::new(|q: StateId| accepting.contains(q))
}

/// Collects the listed states that `keep` marks.
fn marked_roots(accepting: &Vec<StateId>, keep: &Vec<bool>) -> (roots: Vec<usize>)
    requires
        forall|k: int| 0 <= k < accepting@.len() ==> (#[trigger] accepting@[k]).0 < keep@.len(),
    ensures
        forall|k: int| 0 <= k < roots@.len() ==> #[trigger] roots@[k] < keep@.len(),
        forall|q: StateId|
            #[trigger] roots@.contains(q.0 as usize) <==> accepting@.contains(q)
                && keep@[q.0 as int],
{
    let mut roots: Vec<usize> = Vec::new();
    let mut i: usize = 0;
    while i < accepting.len()
        invariant
            i <= accepting@.len(),
            forall|k: int|
                0 <= k < accepting@.len() ==> (#[trigger] accepting@[k]).0 < keep@.len(),
            forall|k: int| 0 <= k < roots@.len() ==> #[trigger] roots@[k] < keep@.len(),
            forall|q: StateId|
                #[trigger] roots@.contains(q.0 as usize) <==> accepting@.take(i as int).contains(q)
                    && keep@[q.0 as int],
        decreases accepting@.len() - i,
    {
        let ghost before = roots@;
        let state: usize = accepting[i].index();
        if keep[state] {
            roots.push(state);
        }
        proof {
            let seen = accepting@.take(i as int);
            let now = accepting@.take(i + 1);
            assert forall|q: StateId|
                #[trigger] roots@.contains(q.0 as usize) <==> now.contains(q)
                && keep@[q.0 as int] by {
                assert(before.contains(q.0 as usize) <==> seen.contains(q) && keep@[q.0 as int]);
                if seen.contains(q) {
                    let k = choose|k: int| 0 <= k < seen.len() && seen[k] == q;
                    assert(now[k] == q);
                }
                if before.contains(q.0 as usize) {
                    let k = choose|k: int| 0 <= k < before.len() && before[k] == q.0 as usize;
                    assert(roots@[k] == q.0 as usize);
                }
                if q == accepting@[i as int] {
                    assert(now[i as int] == q);
                    if keep@[q.0 as int] {
                        assert(roots@[roots@.len() - 1] == q.0 as usize);
                    }
                } else {
                    if now.contains(q) {
                        let k = choose|k: int| 0 <= k < now.len() && now[k] == q;
                        assert(seen[k] == q);
                    }
                    if roots@.contains(q.0 as usize) {
                        let k = choose|k: int| 0 <= k < roots@.len() && roots@[k] == q.0 as usize;
                        assert(before[k] == q.0 as usize);
                    }
                }
            }
        }
        i += 1;
    }
    assert(accepting@.take(i as int) =~= accepting@);
    roots
}

/// What trimming needs to know of the rules and states.
pub struct TrimmingAnalysis {
    /// For every rule, whether it can be used.
    pub productive_rules: Vec<bool>,
    /// For every state, whether it is kept.
    pub relevant: Vec<bool>,
}

/// Analyses rules for trimming.
pub fn analyze_for_trimming(
    state_count: usize,
    rules: &Vec<RuleInput>,
    accepting: &Vec<StateId>,
) -> (analysis: TrimmingAnalysis)
    requires
        state_count <= u32::MAX,
        shapes_below(shapes(rules@), state_count as nat),
        forall|k: int| 0 <= k < accepting@.len() ==> (#[trigger] accepting@[k]).0 < state_count,
    ensures
        analysis.productive_rules@ == productive_mask(shapes(rules@)),
        analysis.relevant@.len() == state_count,
        forall|s: int|
            0 <= s < state_count ==> #[trigger] analysis.relevant@[s] == is_relevant(
                shapes(rules@),
                listed(accepting@),
                StateId(s as u32),
            ),
{
    let ghost all = shapes(rules@);
    let (productive, productive_rules) = productive_states(state_count, rules);
    let index = result_index(state_count, rules);
    let roots = marked_roots(accepting, &productive);
    proof {
        lemma_roots(state_count as nat, all, accepting@, productive@, roots@);
        assert(productive_rules@ =~= productive_mask(all));
    }
    let relevant = states_below(state_count, rules, &index, &productive_rules, roots);
    TrimmingAnalysis { productive_rules, relevant }
}

proof fn lemma_roots(
    n: nat,
    rules: Seq<RuleShape>,
    accepting: Seq<StateId>,
    productive: Seq<bool>,
    roots: Seq<usize>,
)
    requires
        n <= u32::MAX,
        productive.len() == n,
        forall|k: int| 0 <= k < accepting.len() ==> (#[trigger] accepting[k]).0 < n,
        forall|s: int|
            0 <= s < n ==> #[trigger] productive[s] == is_productive(rules, StateId(s as u32)),
        forall|q: StateId|
            #[trigger] roots.contains(q.0 as usize) <==> accepting.contains(q)
                && productive[q.0 as int],
    ensures
        root_set(roots) == productive_roots(rules, listed(accepting)),
{
    assert forall|q: StateId| root_set(roots).contains(q) <==> productive_roots(
        rules,
        listed(accepting),
    ).contains(q) by {
        assert(roots.contains(q.0 as usize) <==> accepting.contains(q)
            && productive[q.0 as int]);
        if accepting.contains(q) {
            let k = choose|k: int| 0 <= k < accepting.len() && accepting[k] == q;
            assert(accepting[k].0 < n);
            assert(productive[q.0 as int] == is_productive(rules, StateId(q.0 as int as u32)));
        }
    }
    assert(root_set(roots) =~= productive_roots(rules, listed(accepting)));
}

/// A mask that lets every rule be used.
pub open spec fn every_rule(rules: Seq<RuleShape>) -> Seq<bool> {
    Seq::new(rules.len(), |i: int| true)
}

/// Analyses rules for trimming without asking which states are productive.
pub fn analyze_productive_for_trimming(
    state_count: usize,
    rules: &Vec<RuleInput>,
    accepting: &Vec<StateId>,
) -> (analysis: TrimmingAnalysis)
    requires
        state_count <= u32::MAX,
        shapes_below(shapes(rules@), state_count as nat),
        forall|k: int| 0 <= k < accepting@.len() ==> (#[trigger] accepting@[k]).0 < state_count,
    ensures
        analysis.productive_rules@ == every_rule(shapes(rules@)),
        analysis.relevant@.len() == state_count,
        forall|s: int|
            0 <= s < state_count ==> #[trigger] analysis.relevant@[s] == is_below(
                shapes(rules@),
                listed(accepting@),
                every_rule(shapes(rules@)),
                StateId(s as u32),
            ),
{
    let ghost all = shapes(rules@);
    let productive: Vec<bool> = vec![true; state_count];
    let productive_rules: Vec<bool> = vec![true; rules.len()];
    let index = result_index(state_count, rules);
    let roots = marked_roots(accepting, &productive);
    proof {
        assert(productive_rules@ =~= every_rule(all));
        assert forall|q: StateId| root_set(roots@).contains(q) <==> listed(
            accepting@,
        ).contains(q) by {
            assert(roots@.contains(q.0 as usize) <==> accepting@.contains(q)
                && productive@[q.0 as int]);
            if accepting@.contains(q) {
                let k = choose|k: int| 0 <= k < accepting@.len() && accepting@[k] == q;
                assert(accepting@[k].0 < state_count);
            }
        }
        assert(root_set(roots@) =~= listed(accepting@));
    }
    let relevant = states_below(state_count, rules, &index, &productive_rules, roots);
    TrimmingAnalysis { productive_rules, relevant }
}

/// Analyses which states and rules occur in accepting derivations, and whether
/// those run through a cycle.
pub fn analyze(
    state_count: usize,
    rules: &Vec<RuleInput>,
    accepting: &Vec<StateId>,
) -> (analysis: LanguageAnalysis)
    requires
        state_count <= u32::MAX,
        shapes_below(shapes(rules@), state_count as nat),
        forall|k: int| 0 <= k < accepting@.len() ==> (#[trigger] accepting@[k]).0 < state_count,
    ensures
        analysis.describes(state_count as nat, shapes(rules@), listed(accepting@)),
{
    let ghost all = shapes(rules@);
    let ghost goal = listed(accepting@);
    let (productive, productive_rules) = productive_states(state_count, rules);
    let rules_by_result = result_index(state_count, rules);
    let roots = marked_roots(accepting, &productive);
    proof {
        lemma_roots(state_count as nat, all, accepting@, productive@, roots@);
        assert(productive_rules@ =~= productive_mask(all));
    }
    let relevant = states_below(state_count, rules, &rules_by_result, &productive_rules, roots);

    let mut live: Vec<bool> = Vec::new();
    let mut i: usize = 0;
    while i < rules.len()
        invariant
            i <= rules@.len(),
            all == shapes(rules@),
            state_count <= u32::MAX,
            shapes_below(all, state_count as nat),
            productive_rules@ == productive_mask(all),
            relevant@.len() == state_count,
            forall|s: int|
                0 <= s < state_count ==> #[trigger] relevant@[s] == is_relevant(
                    all,
                    goal,
                    StateId(s as u32),
                ),
            live@.len() == i,
            forall|j: int| 0 <= j < i ==> #[trigger] live@[j] == is_live(all, goal, j),
        decreases rules@.len() - i,
    {
        assert(shape_below(all[i as int], state_count as nat));
        assert(relevant@[all[i as int].result.0 as int] == is_relevant(
            all,
            goal,
            StateId(all[i as int].result.0 as int as u32),
        ));
        live.push(productive_rules[i] && relevant[rules[i].result.index()]);
        i += 1;
    }
    let edges = live_edges(rules, &live);
    proof {
        assert forall|k: int| 0 <= k < edges@.len() implies (#[trigger] edges@[k]).0 < state_count
            && edges@[k].1 < state_count && relevant@[edges@[k].1 as int] by {
            assert(live_edge(all, live@, edges@[k]));
            let (j, p) = choose|j: int, p: int|
                0 <= j < all.len() && live@[j] && 0 <= p < all[j].children.len()
                    && #[trigger] all[j].children[p].0 == edges@[k].0 && all[j].result.0
                    == edges@[k].1;
            assert(shape_below(all[j], state_count as nat));
            assert(is_live(all, goal, j));
            assert(relevant@[all[j].result.0 as int] == is_relevant(
                all,
                goal,
                StateId(all[j].result.0 as int as u32),
            ));
        }
    }
    let order = dependency_order(state_count, &relevant, &edges);
    let relevant_count: usize = count_marks(&relevant);
    proof {
        let (counts, popped) = choose|counts: Seq<usize>, popped: Seq<bool>|
            order_ok(edges@, relevant@, counts, popped, Seq::empty(), order@);
        assert forall|q: StateId| #[trigger] goal.contains(q) implies q.0 < relevant@.len() by {
            let k = choose|k: int| 0 <= k < accepting@.len() && accepting@[k] == q;
            assert(accepting@[k].0 < state_count);
        }
        lemma_order_complete(all, goal, live@, edges@, relevant@, counts, popped, order@);
    }
    let complete = order.len() == relevant_count;
    LanguageAnalysis {
        productive,
        productive_rules,
        relevant,
        rules_by_result,
        topological: if complete {
            Some(order)
        } else {
            None
        },
    }
}

} // verus!
