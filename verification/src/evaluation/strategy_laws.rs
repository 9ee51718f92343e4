//! How strategies go by their names, and how what they count adds up.
use crate::evaluation::strategies;
use crate::evaluation::strategies::{Counters, Strategy};
use crate::replay::settings;
use crate::replay::strategies::JoinStrategy;
use vstd::prelude::*;

verus! {

/// Every counter of two searches adds up, and a search that counts nothing adds nothing.
pub proof fn law_counters_add_up(a: Counters, b: Counters)
    requires
        a.sums_fit(b),
    ensures
        a.sum(b).finalized_states == a.finalized_states + b.finalized_states,
        a.sum(b).output_rules == a.output_rules + b.output_rules,
        a.sum(b).heap_pushes == a.heap_pushes + b.heap_pushes,
        a.sum(b).heap_updates == a.heap_updates + b.heap_updates,
        a.sum(b).pops == a.pops + b.pops,
        a.sum(b).stale_pops == a.stale_pops + b.stale_pops,
        a.sum(b).reopen_attempts == a.reopen_attempts + b.reopen_attempts,
        a.sum(b).right_indexed_queries == a.right_indexed_queries + b.right_indexed_queries,
        a.sum(b).right_rules_scanned == a.right_rules_scanned + b.right_rules_scanned,
        a.sum(b).rotated_left_join_queries == a.rotated_left_join_queries
            + b.rotated_left_join_queries,
        a.sum(b).left_rule_matches == a.left_rule_matches + b.left_rule_matches,
        a.sum(b).candidate_edges == a.candidate_edges + b.candidate_edges,
        a.sum(b).dominated_candidates == a.dominated_candidates + b.dominated_candidates,
        a.sum(b).finalized_candidate_discards == a.finalized_candidate_discards
            + b.finalized_candidate_discards,
        a.sum(b).f_filtered_candidates == a.f_filtered_candidates + b.f_filtered_candidates,
        a.sum(b).sibling_tuple_queries == a.sibling_tuple_queries + b.sibling_tuple_queries,
        a.sum(b).sibling_tuples_returned == a.sibling_tuples_returned + b.sibling_tuples_returned,
        a.sum(b).right_step_calls == a.right_step_calls + b.right_step_calls,
        a.sum(b).right_step_results == a.right_step_results + b.right_step_results,
        a.sum(b).right_step_evals == a.right_step_evals + b.right_step_evals,
        a.sum(b).right_step_memo_hits == a.right_step_memo_hits + b.right_step_memo_hits,
        a.sum(b).sibling_fallback_expansions == a.sibling_fallback_expansions
            + b.sibling_fallback_expansions,
        a.sum(Counters::nothing()) == a,
{
}

/// Strategies go by different names, and without any being named all but the search with
/// obligatory leaves run, each once.
pub proof fn law_strategies_are_told_apart(a: Strategy, b: Strategy)
    ensures
        a.called() == b.called() ==> a == b,
        strategies::default_strategies().no_duplicates(),
        strategies::default_strategies().contains(a) <==> !(a is AstarSxF),
        strategies::default_strategies().len() == 4,
{
    reveal_strlit("topdown");
    reveal_strlit("astar-zero");
    reveal_strlit("astar-outside");
    reveal_strlit("astar-sx");
    reveal_strlit("astar-sxf");
    assert("topdown"@.len() == 7);
    assert("astar-zero"@.len() == 10);
    assert("astar-outside"@.len() == 13);
    assert("astar-sx"@.len() == 8);
    assert("astar-sxf"@.len() == 9);
    let d = strategies::default_strategies();
    assert(d[0] is TopDown && d[1] is AstarZero && d[2] is AstarOutside && d[3] is AstarSx);
}

/// A replay runs every strategy that is asked for, once, in the order in which they are
/// first asked for.
pub proof fn law_strategies_run_once(list: Seq<JoinStrategy>)
    ensures
        settings::firsts(list).no_duplicates(),
        forall|s: JoinStrategy| #[trigger] settings::firsts(list).contains(s) <==> list.contains(s),
    decreases list.len(),
{
    if list.len() > 0 {
        let front = list.drop_last();
        law_strategies_run_once(front);
        let before = settings::firsts(front);
        let all = settings::firsts(list);
        assert forall|s: JoinStrategy| #[trigger] all.contains(s) <==> list.contains(s) by {
            if all.contains(s) {
                let k = choose|k: int| 0 <= k < all.len() && all[k] == s;
                if k < before.len() {
                    assert(before[k] == s);
                    assert(before.contains(s));
                    let i = choose|i: int| 0 <= i < front.len() && front[i] == s;
                    assert(list[i] == s);
                } else {
                    assert(list[list.len() - 1] == s);
                }
            }
            if list.contains(s) {
                let i = choose|i: int| 0 <= i < list.len() && list[i] == s;
                if i < front.len() {
                    assert(front[i] == s);
                    assert(front.contains(s));
                }
                if front.contains(s) {
                    assert(before.contains(s));
                    let k = choose|k: int| 0 <= k < before.len() && before[k] == s;
                    assert(all[k] == s);
                } else {
                    assert(all[all.len() - 1] == s);
                }
            }
        }
        if !front.contains(list.last()) {
            assert(!before.contains(list.last()));
        }
    }
}

} // verus!
