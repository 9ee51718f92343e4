//! What a search keeps of the product of two automata.
use super::parse::{rebuild, MaterializationStrategy};
use crate::apply::SymbolTree;
use crate::automaton;
use crate::automaton::Automaton;
use crate::builder;
use crate::explicit::Explicit;
use crate::ids::StateId;
use crate::recognition;
use crate::trim_laws;
use vstd::prelude::*;

verus! {

/// The first `n` states.
pub open spec fn first_states(n: nat) -> Seq<StateId> {
    Seq::new(n, |i: int| StateId(i as u32))
}

/// Whether `b` is what a search keeps of a product, and `kept` lists the states that it
/// keeps. A search from the accepting states down keeps those that occur in accepting
/// derivations; any other keeps all.
pub open spec fn explored(
    strategy: MaterializationStrategy,
    full: Automaton,
    kept: Seq<StateId>,
    b: Automaton,
) -> bool {
    if strategy == MaterializationStrategy::TopDownCondensed {
        builder::lists_kept(full, false, kept) && kept.len() <= u32::MAX && b == builder::trimmed(
            full,
            false,
            kept,
        )
    } else {
        kept == first_states(full.states) && b == full
    }
}

/// Keeps of a product what the search keeps.
pub fn explore(full: Explicit, strategy: MaterializationStrategy) -> (r: (Explicit, Vec<StateId>))
    requires
        automaton::unique_transitions(full@.rules),
    ensures
        explored(strategy, full@, r.1@, r.0@),
{
    proof {
        use_type_invariant(&full);
        full.lemma_well_formed();
    }
    let mut kept: Vec<StateId> = Vec::new();
    if strategy == MaterializationStrategy::TopDownCondensed {
        let work = rebuild(&full);
        proof {
            assert forall|kept: Seq<StateId>| #[trigger]
                builder::lists_kept(full@, false, kept) implies automaton::unique_transitions(
                builder::trimmed(full@, false, kept).rules,
            ) && builder::trimmed(full@, false, kept).rules.len() <= u32::MAX by {
                builder::lemma_kept_fits(full@, false, kept);
                trim_laws::lemma_trimmed_unique(full@, kept);
            }
        }
        let t = work.build_trimmed();
        let n: usize = t.state_mapping.len();
        proof {
            builder::lemma_kept_fits(full@, false, t.state_mapping@);
        }
        let mut i: usize = 0;
        while i < n
            invariant
                i <= n,
                n == t.state_mapping@.len(),
                n <= u32::MAX,
                kept@ == t.state_mapping@.take(i as int),
            decreases n - i,
        {
            kept.push(t.state_mapping.old_state(StateId(i as u32)));
            assert(t.state_mapping@.take(i + 1) =~= t.state_mapping@.take(i as int).push(
                t.state_mapping@[i as int],
            ));
            i += 1;
        }
        assert(kept@ =~= t.state_mapping@);
        (t.automaton, kept)
    } else {
        let n: u32 = full.num_states();
        let mut i: u32 = 0;
        while i < n
            invariant
                i <= n,
                kept@ == first_states(i as nat),
            decreases n - i,
        {
            kept.push(StateId(i));
            assert(kept@ =~= first_states((i + 1) as nat));
            i += 1;
        }
        (full, kept)
    }
}

/// A search keeps states of the product, and numbers them anew.
pub proof fn lemma_explored(
    strategy: MaterializationStrategy,
    full: Automaton,
    kept: Seq<StateId>,
    b: Automaton,
)
    requires
        full.well_formed(),
        explored(strategy, full, kept, b),
    ensures
        b.states == kept.len(),
        forall|i: int| 0 <= i < kept.len() ==> (#[trigger] kept[i]).0 < full.states,
{
    if strategy == MaterializationStrategy::TopDownCondensed {
        builder::lemma_kept_fits(full, false, kept);
    }
}

/// The trees that a product accepts are the same after every search.
pub proof fn law_search_keeps_language(
    strategy: MaterializationStrategy,
    full: &Explicit,
    kept: Seq<StateId>,
    b: &Explicit,
    t: SymbolTree,
)
    requires
        explored(strategy, full@, kept, b@),
    ensures
        recognition::recognizes(b, t) <==> recognition::recognizes(full, t),
{
    if strategy == MaterializationStrategy::TopDownCondensed {
        trim_laws::law_trimming_keeps_language(full, b, kept, t);
    } else {
        trim_laws::lemma_same_language(full, b, t);
    }
}

} // verus!
