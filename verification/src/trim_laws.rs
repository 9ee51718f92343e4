//! What trimming keeps of an automaton.
use crate::apply::SymbolTree;
use crate::automaton;
use crate::automaton::{Automaton, RuleModel};
use crate::builder;
use crate::explicit::Explicit;
use crate::ids::{StateId, Symbol};
use crate::language_analysis;
use crate::language_analysis::RuleShape;
use crate::recognition;
use crate::runs;
use crate::runs::Run;
use crate::traits::BottomUpTa;
use crate::weight::Weight;
use vstd::prelude::*;

verus! {

/// A derivation as a tree of symbols with the weights of the rules that put them there.
pub struct WeightedTree {
    pub symbol: Symbol,
    pub weight: Weight,
    pub children: Seq<WeightedTree>,
}

/// The symbols and weights of a derivation.
pub open spec fn weighted(rules: Seq<RuleModel>, run: Run) -> WeightedTree
    decreases run,
{
    WeightedTree {
        symbol: rules[run.rule as int].symbol,
        weight: rules[run.rule as int].weight,
        children: Seq::new(
            run.children.len(),
            |p: int|
                if 0 <= p < run.children.len() {
                    weighted(rules, run.children[p])
                } else {
                    arbitrary()
                },
        ),
    }
}

/// Whether a run is an accepting derivation.
pub open spec fn is_accepting_run(a: Automaton, run: Run, q: StateId) -> bool {
    a.accepting.contains(q) && runs::is_run(automaton::rule_shapes(a.rules), run, q)
}

/// The number of marked rules before rule `i`.
pub open spec fn rank(marked: Seq<bool>, i: int) -> nat
    decreases i,
{
    if i <= 0 {
        0
    } else {
        rank(marked, i - 1) + (if marked[i - 1] {
            1nat
        } else {
            0
        })
    }
}

/// The marked rule with the given number of marked rules before it.
pub open spec fn ranked(marked: Seq<bool>, k: nat) -> int {
    choose|i: int| 0 <= i < marked.len() && marked[i] && #[trigger] rank(marked, i) == k
}

/// A derivation with its rules numbered as they are after trimming.
pub open spec fn moved(marked: Seq<bool>, run: Run) -> Run
    decreases run,
{
    Run {
        rule: rank(marked, run.rule as int),
        children: Seq::new(
            run.children.len(),
            |p: int|
                if 0 <= p < run.children.len() {
                    moved(marked, run.children[p])
                } else {
                    arbitrary()
                },
        ),
    }
}

/// A derivation with its rules numbered as they were before trimming.
pub open spec fn moved_back(marked: Seq<bool>, run: Run) -> Run
    decreases run,
{
    Run {
        rule: ranked(marked, run.rule) as nat,
        children: Seq::new(
            run.children.len(),
            |p: int|
                if 0 <= p < run.children.len() {
                    moved_back(marked, run.children[p])
                } else {
                    arbitrary()
                },
        ),
    }
}

proof fn lemma_rank_increases(marked: Seq<bool>, i: int, j: int)
    requires
        0 <= i < j <= marked.len(),
        marked[i],
    ensures
        rank(marked, i) < rank(marked, j),
    decreases j - i,
{
    if i < j - 1 {
        lemma_rank_increases(marked, i, j - 1);
    }
}

/// A marked rule is the only one with its number.
proof fn lemma_ranked(marked: Seq<bool>, i: int)
    requires
        0 <= i < marked.len(),
        marked[i],
    ensures
        ranked(marked, rank(marked, i)) == i,
{
    let j = ranked(marked, rank(marked, i));
    assert(0 <= j < marked.len() && marked[j] && rank(marked, j) == rank(marked, i));
    if i < j {
        lemma_rank_increases(marked, i, j);
    } else if j < i {
        lemma_rank_increases(marked, j, i);
    }
}

/// Where a marked rule stands among the renumbered ones.
proof fn lemma_compact_rules(kept: Seq<StateId>, rules: Seq<RuleModel>, marked: Seq<bool>)
    requires
        rules.len() <= marked.len(),
    ensures
        builder::compact_rules(kept, rules, marked).len() == rank(marked, rules.len() as int),
        forall|i: int|
            0 <= i < rules.len() && marked[i] ==> #[trigger] rank(marked, i)
                < builder::compact_rules(kept, rules, marked).len() && builder::compact_rules(
                kept,
                rules,
                marked,
            )[rank(marked, i) as int] == builder::compact_rule(kept, rules[i]),
    decreases rules.len(),
{
    if rules.len() > 0 {
        let front = rules.drop_last();
        let n = front.len() as int;
        lemma_compact_rules(kept, front, marked);
        let all = builder::compact_rules(kept, rules, marked);
        assert forall|i: int| 0 <= i < rules.len() && marked[i] implies #[trigger] rank(marked, i)
            < all.len() && all[rank(marked, i) as int] == builder::compact_rule(kept, rules[i]) by {
            if i < n {
                assert(front[i] == rules[i]);
                lemma_rank_increases(marked, i, n);
            }
        }
    }
}

/// Every number below that of the marked rules is one of theirs.
proof fn lemma_rank_covers(marked: Seq<bool>, n: int, k: nat)
    requires
        0 <= n <= marked.len(),
        k < rank(marked, n),
    ensures
        exists|i: int| 0 <= i < n && marked[i] && #[trigger] rank(marked, i) == k,
    decreases n,
{
    if n > 0 {
        if k < rank(marked, n - 1) {
            lemma_rank_covers(marked, n - 1, k);
            let i = choose|i: int|
                0 <= i < n - 1 && marked[i] && #[trigger] rank(marked, i) == k;
            assert(rank(marked, i) == k);
        } else {
            assert(rank(marked, n - 1) == k);
        }
    }
}

/// A state is productive exactly when some finite derivation ends in it.
pub proof fn law_productive_states_have_derivations(rules: Seq<RuleShape>, q: StateId)
    ensures
        language_analysis::is_productive(rules, q) <==> exists|run: Run| #[trigger]
            runs::is_run(rules, run, q),
{
    if exists|run: Run| #[trigger] runs::is_run(rules, run, q) {
        let run = choose|run: Run| #[trigger] runs::is_run(rules, run, q);
        lemma_run_productive(rules, run, q);
    }
    if language_analysis::is_productive(rules, q) {
        let s = Set::new(|p: StateId| exists|run: Run| #[trigger] runs::is_run(rules, run, p));
        assert forall|i: int|
            0 <= i < rules.len() && language_analysis::children_in(
                #[trigger] rules[i],
                s,
            ) implies s.contains(rules[i].result) by {
            let children = Seq::new(
                rules[i].children.len(),
                |p: int| choose|run: Run| #[trigger] runs::is_run(rules, run, rules[i].children[p]),
            );
            let run = Run { rule: i as nat, children };
            assert forall|p: int| 0 <= p < children.len() implies runs::is_run(
                rules,
                #[trigger] children[p],
                rules[i].children[p],
            ) by {
                assert(s.contains(rules[i].children[p]));
            }
            assert(runs::is_run(rules, run, rules[i].result));
        }
        assert(language_analysis::productive_closed(rules, s));
        assert(s.contains(q));
    }
}

proof fn lemma_run_productive(rules: Seq<RuleShape>, run: Run, q: StateId)
    requires
        runs::is_run(rules, run, q),
    ensures
        language_analysis::is_productive(rules, q),
        language_analysis::rule_productive(rules, run.rule as int),
    decreases run,
{
    let i = run.rule as int;
    assert forall|p: int| 0 <= p < rules[i].children.len() implies language_analysis::is_productive(
        rules,
        #[trigger] rules[i].children[p],
    ) by {
        assert(runs::is_run(rules, run.children[p], rules[i].children[p]));
        lemma_run_productive(rules, run.children[p], rules[i].children[p]);
    }
    runs::lemma_result_productive(rules, i);
}

/// Trimming retains a state exactly when it is productive and lies below an accepting state
/// through productive rules.
pub proof fn law_retained_states(a: Automaton, kept: Seq<StateId>, q: StateId)
    requires
        builder::lists_kept(a, false, kept),
    ensures
        kept.contains(q) <==> (a.productive(q) && language_analysis::is_below(
            automaton::rule_shapes(a.rules),
            a.accepting,
            language_analysis::productive_mask(automaton::rule_shapes(a.rules)),
            q,
        )),
{
    let shapes = automaton::rule_shapes(a.rules);
    let usable = language_analysis::productive_mask(shapes);
    let roots = language_analysis::productive_roots(shapes, a.accepting);
    assert(kept.contains(q) <==> a.relevant(q));
    if a.relevant(q) {
        assert forall|s: Set<StateId>| #[trigger]
            language_analysis::below_closed(shapes, a.accepting, usable, s) implies s.contains(
            q,
        ) by {
            assert(language_analysis::below_closed(shapes, roots, usable, s));
        }
        let s = Set::new(|p: StateId| language_analysis::is_productive(shapes, p));
        assert(language_analysis::below_closed(shapes, roots, usable, s)) by {
            assert forall|i: int|
                0 <= i < shapes.len() && usable[i] && s.contains(
                    shapes[i].result,
                ) implies language_analysis::children_in(#[trigger] shapes[i], s) by {
                assert(language_analysis::rule_productive(shapes, i));
            }
        }
        assert(s.contains(q));
    }
    if a.productive(q) && language_analysis::is_below(shapes, a.accepting, usable, q) {
        assert forall|s: Set<StateId>| #[trigger]
            language_analysis::below_closed(shapes, roots, usable, s) implies s.contains(q) by {
            let wider = Set::new(
                |p: StateId| s.contains(p) || !language_analysis::is_productive(shapes, p),
            );
            assert(language_analysis::below_closed(shapes, a.accepting, usable, wider)) by {
                assert forall|p: StateId| #[trigger] a.accepting.contains(p) implies wider.contains(
                    p,
                ) by {
                    if language_analysis::is_productive(shapes, p) {
                        assert(roots.contains(p));
                    }
                }
                assert forall|i: int|
                    0 <= i < shapes.len() && usable[i] && wider.contains(
                        shapes[i].result,
                    ) implies language_analysis::children_in(#[trigger] shapes[i], wider) by {
                    assert(language_analysis::rule_productive(shapes, i));
                    runs::lemma_result_productive(shapes, i);
                    assert(s.contains(shapes[i].result));
                    assert(language_analysis::children_in(shapes[i], s));
                }
            }
            assert(wider.contains(q));
        }
    }
}

/// The numbers that retained states get are all numbers below their count, in the order of
/// the old ones, and a state accepts where the one that it was does.
pub proof fn law_state_mapping(a: Automaton, assume_productive: bool, kept: Seq<StateId>)
    requires
        builder::lists_kept(a, assume_productive, kept),
        kept.len() <= u32::MAX,
    ensures
        builder::trimmed(a, assume_productive, kept).states == kept.len(),
        forall|k: int|
            0 <= k < kept.len() ==> builder::compact(kept, #[trigger] kept[k]) == StateId(k as u32),
        forall|q: StateId| #[trigger]
            kept.contains(q) ==> builder::compact(kept, q).0 < kept.len() && kept[builder::compact(
                kept,
                q,
            ).0 as int] == q && (builder::trimmed(
                a,
                assume_productive,
                kept,
            ).accepting.contains(builder::compact(kept, q)) <==> a.accepting.contains(q)),
        forall|p: StateId, q: StateId| #[trigger]
            kept.contains(p) && #[trigger] kept.contains(q) && p.0 < q.0 ==> builder::compact(
                kept,
                p,
            ).0 < builder::compact(kept, q).0,
{
    assert forall|k: int| 0 <= k < kept.len() implies builder::compact(kept, #[trigger] kept[k])
        == StateId(k as u32) by {
        builder::lemma_compact(kept, kept[k], k);
    }
    assert forall|q: StateId| #[trigger] kept.contains(q) implies builder::compact(kept, q).0
        < kept.len() && kept[builder::compact(kept, q).0 as int] == q && (builder::trimmed(
        a,
        assume_productive,
        kept,
    ).accepting.contains(builder::compact(kept, q)) <==> a.accepting.contains(q)) by {
        let k = choose|k: int| 0 <= k < kept.len() && kept[k] == q;
        assert(builder::compact(kept, kept[k]) == StateId(k as u32));
    }
    assert forall|p: StateId, q: StateId| #[trigger]
        kept.contains(p) && #[trigger] kept.contains(q) && p.0 < q.0 implies builder::compact(
        kept,
        p,
    ).0 < builder::compact(kept, q).0 by {
        let i = builder::compact(kept, p).0 as int;
        let j = builder::compact(kept, q).0 as int;
        assert(kept[i] == p && kept[j] == q);
        if j < i {
            assert(kept[j].0 < kept[i].0);
        }
    }
}

/// A derivation below a retained state uses only rules that are kept.
proof fn lemma_run_kept(a: Automaton, assume_productive: bool, run: Run, q: StateId)
    requires
        runs::is_run(automaton::rule_shapes(a.rules), run, q),
        builder::is_kept(a, assume_productive, q),
    ensures
        builder::kept_rules(a, assume_productive)[run.rule as int],
{
    let shapes = automaton::rule_shapes(a.rules);
    lemma_run_productive(shapes, run, q);
    assert(a.rules[run.rule as int].result == shapes[run.rule as int].result);
}

proof fn lemma_moved(
    a: Automaton,
    assume_productive: bool,
    kept: Seq<StateId>,
    run: Run,
    q: StateId,
)
    requires
        builder::lists_kept(a, assume_productive, kept),
        kept.len() <= u32::MAX,
        runs::is_run(automaton::rule_shapes(a.rules), run, q),
        builder::is_kept(a, assume_productive, q),
    ensures
        ({
            let marked = builder::kept_rules(a, assume_productive);
            let t = builder::trimmed(a, assume_productive, kept);
            &&& runs::is_run(
                automaton::rule_shapes(t.rules),
                moved(marked, run),
                builder::compact(kept, q),
            )
            &&& weighted(t.rules, moved(marked, run)) == weighted(a.rules, run)
            &&& moved_back(marked, moved(marked, run)) == run
        }),
    decreases run,
{
    let marked = builder::kept_rules(a, assume_productive);
    let t = builder::trimmed(a, assume_productive, kept);
    let i = run.rule as int;
    let new = moved(marked, run);
    let shapes = automaton::rule_shapes(a.rules);
    let shapes_after = automaton::rule_shapes(t.rules);
    lemma_run_kept(a, assume_productive, run, q);
    lemma_compact_rules(kept, a.rules, marked);
    lemma_ranked(marked, i);
    builder::lemma_kept_children(a, assume_productive, i);
    assert(t.rules[new.rule as int] == builder::compact_rule(kept, a.rules[i]));
    assert forall|p: int| 0 <= p < run.children.len() implies runs::is_run(
        shapes_after,
        #[trigger] new.children[p],
        shapes_after[new.rule as int].children[p],
    ) && weighted(t.rules, new.children[p]) == weighted(a.rules, run.children[p]) && moved_back(
        marked,
        new.children[p],
    ) == run.children[p] by {
        let child = a.rules[i].children[p];
        assert(shapes[i].children[p] == child);
        assert(runs::is_run(shapes, run.children[p], child));
        assert(builder::is_kept(a, assume_productive, a.rules[i].children[p]));
        lemma_moved(a, assume_productive, kept, run.children[p], child);
        assert(shapes_after[new.rule as int].children[p] == builder::compact(kept, child));
    }
    assert(weighted(t.rules, new).children =~= weighted(a.rules, run).children);
    assert(moved_back(marked, new).children =~= run.children);
}

/// Trimming keeps every accepting derivation, with its symbols and weights, and different
/// derivations stay different.
pub proof fn law_trimming_keeps_derivations(
    a: Automaton,
    assume_productive: bool,
    kept: Seq<StateId>,
    run: Run,
    q: StateId,
)
    requires
        builder::lists_kept(a, assume_productive, kept),
        kept.len() <= u32::MAX,
        is_accepting_run(a, run, q),
    ensures
        ({
            let marked = builder::kept_rules(a, assume_productive);
            let t = builder::trimmed(a, assume_productive, kept);
            &&& is_accepting_run(t, moved(marked, run), builder::compact(kept, q))
            &&& weighted(t.rules, moved(marked, run)) == weighted(a.rules, run)
            &&& moved_back(marked, moved(marked, run)) == run
        }),
{
    let shapes = automaton::rule_shapes(a.rules);
    lemma_run_productive(shapes, run, q);
    assert(builder::is_kept(a, assume_productive, q)) by {
        let roots = if assume_productive {
            a.accepting
        } else {
            language_analysis::productive_roots(shapes, a.accepting)
        };
        assert(roots.contains(q));
    }
    lemma_moved(a, assume_productive, kept, run, q);
    law_state_mapping(a, assume_productive, kept);
    assert(kept.contains(q));
}

proof fn lemma_moved_back(
    a: Automaton,
    assume_productive: bool,
    kept: Seq<StateId>,
    run: Run,
    q: StateId,
)
    requires
        builder::lists_kept(a, assume_productive, kept),
        kept.len() <= u32::MAX,
        runs::is_run(
            automaton::rule_shapes(builder::trimmed(a, assume_productive, kept).rules),
            run,
            q,
        ),
    ensures
        ({
            let marked = builder::kept_rules(a, assume_productive);
            let t = builder::trimmed(a, assume_productive, kept);
            &&& q.0 < kept.len()
            &&& runs::is_run(
                automaton::rule_shapes(a.rules),
                moved_back(marked, run),
                kept[q.0 as int],
            )
            &&& weighted(a.rules, moved_back(marked, run)) == weighted(t.rules, run)
            &&& moved(marked, moved_back(marked, run)) == run
        }),
    decreases run,
{
    let marked = builder::kept_rules(a, assume_productive);
    let t = builder::trimmed(a, assume_productive, kept);
    let shapes = automaton::rule_shapes(a.rules);
    let shapes_after = automaton::rule_shapes(t.rules);
    let old = moved_back(marked, run);
    lemma_compact_rules(kept, a.rules, marked);
    lemma_rank_covers(marked, a.rules.len() as int, run.rule);
    let i = ranked(marked, run.rule);
    assert(0 <= i < marked.len() && marked[i] && rank(marked, i) == run.rule);
    builder::lemma_kept_children(a, assume_productive, i);
    law_state_mapping(a, assume_productive, kept);
    assert(t.rules[run.rule as int] == builder::compact_rule(kept, a.rules[i]));
    assert(kept.contains(a.rules[i].result));
    assert(q == builder::compact(kept, a.rules[i].result));
    assert forall|p: int| 0 <= p < run.children.len() implies runs::is_run(
        shapes,
        #[trigger] old.children[p],
        shapes[i].children[p],
    ) && weighted(a.rules, old.children[p]) == weighted(t.rules, run.children[p]) && moved(
        marked,
        old.children[p],
    ) == run.children[p] by {
        let child = a.rules[i].children[p];
        assert(builder::is_kept(a, assume_productive, a.rules[i].children[p]));
        assert(kept.contains(child));
        let number = shapes_after[run.rule as int].children[p];
        assert(number == builder::compact(kept, child));
        assert(runs::is_run(shapes_after, run.children[p], number));
        lemma_moved_back(a, assume_productive, kept, run.children[p], number);
        assert(shapes[i].children[p] == child);
    }
    assert(weighted(a.rules, old).children =~= weighted(t.rules, run).children);
    assert(moved(marked, old).children =~= run.children);
}

/// Trimming adds no accepting derivation: each of the trimmed automaton is one of the
/// automaton, with its symbols and weights.
pub proof fn law_trimming_adds_no_derivation(
    a: Automaton,
    assume_productive: bool,
    kept: Seq<StateId>,
    run: Run,
    q: StateId,
)
    requires
        builder::lists_kept(a, assume_productive, kept),
        kept.len() <= u32::MAX,
        is_accepting_run(builder::trimmed(a, assume_productive, kept), run, q),
    ensures
        ({
            let marked = builder::kept_rules(a, assume_productive);
            let t = builder::trimmed(a, assume_productive, kept);
            &&& is_accepting_run(a, moved_back(marked, run), kept[q.0 as int])
            &&& weighted(a.rules, moved_back(marked, run)) == weighted(t.rules, run)
            &&& moved(marked, moved_back(marked, run)) == run
        }),
{
    lemma_moved_back(a, assume_productive, kept, run, q);
}

/// A state that a tree reaches is productive.
proof fn lemma_reached_productive(a: &Explicit, t: SymbolTree, q: StateId)
    requires
        recognition::reaches(a, t, q),
    ensures
        a@.productive(q),
    decreases t,
{
    let shapes = automaton::rule_shapes(a@.rules);
    let states = recognition::lemma_reaches(a, t, q);
    let i = choose|i: int|
        0 <= i < a@.rules.len() && automaton::applies(
            #[trigger] a@.rules[i],
            t.symbol,
            states,
        ) && a@.rules[i].result == q;
    assert forall|p: int|
        0 <= p < shapes[i].children.len() implies language_analysis::is_productive(
        shapes,
        #[trigger] shapes[i].children[p],
    ) by {
        assert(recognition::reaches(a, t.children[p], states[p]));
        lemma_reached_productive(a, t.children[p], states[p]);
    }
    runs::lemma_result_productive(shapes, i);
}

/// What a tree reaches in a trimmed automaton it reached before.
proof fn lemma_trimmed_reaches(
    a: &Explicit,
    b: &Explicit,
    kept: Seq<StateId>,
    t: SymbolTree,
    q: StateId,
)
    requires
        builder::lists_kept(a@, false, kept),
        kept.len() <= u32::MAX,
        b@ == builder::trimmed(a@, false, kept),
        recognition::reaches(b, t, q),
    ensures
        q.0 < kept.len(),
        recognition::reaches(a, t, kept[q.0 as int]),
    decreases t,
{
    let marked = builder::kept_rules(a@, false);
    let states = recognition::lemma_reaches(b, t, q);
    let k = choose|k: int|
        0 <= k < b@.rules.len() && automaton::applies(
            #[trigger] b@.rules[k],
            t.symbol,
            states,
        ) && b@.rules[k].result == q;
    lemma_compact_rules(kept, a@.rules, marked);
    lemma_rank_covers(marked, a@.rules.len() as int, k as nat);
    let i = ranked(marked, k as nat);
    assert(0 <= i < marked.len() && marked[i] && rank(marked, i) == k);
    builder::lemma_kept_children(a@, false, i);
    law_state_mapping(a@, false, kept);
    let rule = a@.rules[i];
    assert(b@.rules[k] == builder::compact_rule(kept, rule));
    assert(kept.contains(rule.result));
    assert(q == builder::compact(kept, rule.result));
    assert forall|p: int| 0 <= p < t.children.len() implies recognition::reaches(
        a,
        #[trigger] t.children[p],
        rule.children[p],
    ) by {
        assert(builder::is_kept(a@, false, rule.children[p]));
        assert(kept.contains(rule.children[p]));
        assert(states[p] == builder::compact(kept, rule.children[p]));
        assert(recognition::reaches(b, t.children[p], states[p]));
        lemma_trimmed_reaches(a, b, kept, t.children[p], states[p]);
    }
    assert(automaton::applies(a@.rules[i], t.symbol, rule.children));
    assert(a.steps_to(t.symbol, rule.children, rule.result));
}

/// What a tree reaches that is retained it reaches after trimming.
proof fn lemma_reaches_trimmed(
    a: &Explicit,
    b: &Explicit,
    kept: Seq<StateId>,
    t: SymbolTree,
    q: StateId,
)
    requires
        builder::lists_kept(a@, false, kept),
        kept.len() <= u32::MAX,
        b@ == builder::trimmed(a@, false, kept),
        builder::is_kept(a@, false, q),
        recognition::reaches(a, t, q),
    ensures
        recognition::reaches(b, t, builder::compact(kept, q)),
    decreases t,
{
    let marked = builder::kept_rules(a@, false);
    let shapes = automaton::rule_shapes(a@.rules);
    let states = recognition::lemma_reaches(a, t, q);
    let i = choose|i: int|
        0 <= i < a@.rules.len() && automaton::applies(
            #[trigger] a@.rules[i],
            t.symbol,
            states,
        ) && a@.rules[i].result == q;
    assert forall|p: int|
        0 <= p < shapes[i].children.len() implies language_analysis::is_productive(
        shapes,
        #[trigger] shapes[i].children[p],
    ) by {
        assert(recognition::reaches(a, t.children[p], states[p]));
        lemma_reached_productive(a, t.children[p], states[p]);
    }
    assert(marked[i]);
    builder::lemma_kept_children(a@, false, i);
    lemma_compact_rules(kept, a@.rules, marked);
    let k = rank(marked, i) as int;
    let rule = b@.rules[k];
    assert(rule == builder::compact_rule(kept, a@.rules[i]));
    assert forall|p: int| 0 <= p < t.children.len() implies recognition::reaches(
        b,
        #[trigger] t.children[p],
        rule.children[p],
    ) by {
        assert(builder::is_kept(a@, false, a@.rules[i].children[p]));
        assert(recognition::reaches(a, t.children[p], states[p]));
        lemma_reaches_trimmed(a, b, kept, t.children[p], states[p]);
    }
    assert(automaton::applies(b@.rules[k], t.symbol, rule.children));
    assert(b.steps_to(t.symbol, rule.children, rule.result));
}

/// A trimmed automaton accepts the trees that the automaton accepts.
pub proof fn law_trimming_keeps_language(
    a: &Explicit,
    b: &Explicit,
    kept: Seq<StateId>,
    t: SymbolTree,
)
    requires
        builder::lists_kept(a@, false, kept),
        kept.len() <= u32::MAX,
        b@ == builder::trimmed(a@, false, kept),
    ensures
        recognition::recognizes(b, t) <==> recognition::recognizes(a, t),
{
    law_state_mapping(a@, false, kept);
    if recognition::recognizes(b, t) {
        let q = choose|q: StateId| #[trigger] recognition::reaches(b, t, q) && b.accepts(q);
        lemma_trimmed_reaches(a, b, kept, t, q);
        assert(a.accepts(kept[q.0 as int]));
    }
    if recognition::recognizes(a, t) {
        let q = choose|q: StateId| #[trigger] recognition::reaches(a, t, q) && a.accepts(q);
        let shapes = automaton::rule_shapes(a@.rules);
        lemma_reached_productive(a, t, q);
        assert(builder::is_kept(a@, false, q)) by {
            assert(language_analysis::productive_roots(shapes, a@.accepting).contains(q));
        }
        assert(kept.contains(q));
        lemma_reaches_trimmed(a, b, kept, t, q);
        assert(b.accepts(builder::compact(kept, q)));
    }
}

/// Transitions that differ still differ after trimming.
pub proof fn lemma_trimmed_unique(a: Automaton, kept: Seq<StateId>)
    requires
        builder::lists_kept(a, false, kept),
        kept.len() <= u32::MAX,
        automaton::unique_transitions(a.rules),
    ensures
        automaton::unique_transitions(builder::trimmed(a, false, kept).rules),
        builder::trimmed(a, false, kept).rules.len() <= a.rules.len(),
{
    let marked = builder::kept_rules(a, false);
    let t = builder::trimmed(a, false, kept);
    lemma_compact_rules(kept, a.rules, marked);
    lemma_rank_bounded(marked, a.rules.len() as int);
    law_state_mapping(a, false, kept);
    assert forall|k: int| 0 <= k < t.rules.len() implies !#[trigger] automaton::repeats(
        t.rules,
        k,
    ) by {
        if automaton::repeats(t.rules, k) {
            let h = choose|h: int|
                0 <= h < k && automaton::same_transition(#[trigger] t.rules[h], t.rules[k]);
            lemma_rank_covers(marked, a.rules.len() as int, k as nat);
            lemma_rank_covers(marked, a.rules.len() as int, h as nat);
            let i = ranked(marked, k as nat);
            let j = ranked(marked, h as nat);
            assert(0 <= i < marked.len() && marked[i] && rank(marked, i) == k);
            assert(0 <= j < marked.len() && marked[j] && rank(marked, j) == h);
            builder::lemma_kept_children(a, false, i);
            builder::lemma_kept_children(a, false, j);
            if i <= j {
                if i < j {
                    lemma_rank_increases(marked, i, j);
                }
            }
            assert(j < i);
            let x = a.rules[j];
            let y = a.rules[i];
            assert(t.rules[h] == builder::compact_rule(kept, x));
            assert(t.rules[k] == builder::compact_rule(kept, y));
            assert(kept.contains(x.result) && kept.contains(y.result));
            assert(builder::compact(kept, x.result) == builder::compact(kept, y.result));
            assert(x.result == y.result);
            assert(t.rules[h].children.len() == x.children.len());
            assert(t.rules[k].children.len() == y.children.len());
            assert forall|p: int| 0 <= p < x.children.len() implies x.children[p]
                == y.children[p] by {
                assert(builder::is_kept(a, false, x.children[p]));
                assert(builder::is_kept(a, false, y.children[p]));
                assert(kept.contains(x.children[p]) && kept.contains(y.children[p]));
                assert(t.rules[h].children[p] == builder::compact(kept, x.children[p]));
                assert(t.rules[k].children[p] == builder::compact(kept, y.children[p]));
            }
            assert(x.children =~= y.children);
            assert(automaton::same_transition(a.rules[j], a.rules[i]));
            assert(automaton::repeats(a.rules, i));
        }
    }
}

proof fn lemma_rank_bounded(marked: Seq<bool>, n: int)
    requires
        0 <= n <= marked.len(),
    ensures
        rank(marked, n) <= n,
    decreases n,
{
    if n > 0 {
        lemma_rank_bounded(marked, n - 1);
    }
}

/// Automata with the same states and rules give a tree the same states.
proof fn lemma_same_states(a: &Explicit, b: &Explicit, t: SymbolTree, q: StateId)
    requires
        a@ == b@,
        recognition::reaches(a, t, q),
    ensures
        recognition::reaches(b, t, q),
    decreases t,
{
    let states = recognition::lemma_reaches(a, t, q);
    assert forall|i: int| 0 <= i < t.children.len() implies recognition::reaches(
        b,
        #[trigger] t.children[i],
        states[i],
    ) by {
        lemma_same_states(a, b, t.children[i], states[i]);
    }
    assert(b.steps_to(t.symbol, states, q));
}

/// Automata with the same states and rules accept the same trees.
pub proof fn lemma_same_language(a: &Explicit, b: &Explicit, t: SymbolTree)
    requires
        a@ == b@,
    ensures
        recognition::recognizes(a, t) <==> recognition::recognizes(b, t),
{
    if recognition::recognizes(a, t) {
        let q = choose|q: StateId| #[trigger] recognition::reaches(a, t, q) && a.accepts(q);
        lemma_same_states(a, b, t, q);
        assert(b.accepts(q));
    }
    if recognition::recognizes(b, t) {
        let q = choose|q: StateId| #[trigger] recognition::reaches(b, t, q) && b.accepts(q);
        lemma_same_states(b, a, t, q);
        assert(a.accepts(q));
    }
}

} // verus!
