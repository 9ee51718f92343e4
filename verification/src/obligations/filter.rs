//! Discarding partial parses whose obligatory leaves the sentence cannot supply.
use crate::ids::StateId;
use crate::obligations::bag;
use crate::obligations::bag::{Bag, Counts};
use crate::obligations::laws;
use crate::obligations::laws::Descent;
use crate::obligations::needs;
use crate::obligations::needs::{FlatRule, Need, TokenRule};
use crate::obligations::tables::{inside_table, outside_table};
use vstd::prelude::*;

verus! {

/// How often a word occurs.
pub open spec fn occurrences(words: Seq<u32>, s: u32) -> nat
    decreases words.len(),
{
    if words.len() == 0 {
        0
    } else {
        occurrences(words.drop_last(), s) + if words.last() == s {
            1nat
        } else {
            0nat
        }
    }
}

/// Whether the words supply everything that is needed.
pub open spec fn supplies(words: Seq<u32>, need: Counts) -> bool {
    forall|s: u32| #[trigger] need(s) <= occurrences(words, s)
}

/// Counts a word in a part of a sentence.
fn count_word(words: &Vec<u32>, from: usize, to: usize, s: u32) -> (n: usize)
    requires
        from <= to <= words@.len(),
    ensures
        n == occurrences(words@.subrange(from as int, to as int), s),
{
    let mut n: usize = 0;
    let mut i: usize = from;
    assert(words@.subrange(from as int, from as int).len() == 0);
    while i < to
        invariant
            from <= i <= to <= words@.len(),
            n == occurrences(words@.subrange(from as int, i as int), s),
            n <= i,
        decreases to - i,
    {
        proof {
            let next = words@.subrange(from as int, i + 1);
            assert(next.drop_last() =~= words@.subrange(from as int, i as int));
            assert(next.last() == words@[i as int]);
        }
        if words[i] == s {
            n += 1;
        }
        i += 1;
    }
    n
}

/// Whether a part of a sentence supplies every required leaf often enough.
pub fn supply_covers(req: &Bag, words: &Vec<u32>, from: usize, to: usize) -> (r: bool)
    requires
        from <= to <= words@.len(),
    ensures
        r == supplies(words@.subrange(from as int, to as int), req@),
{
    let ghost part = words@.subrange(from as int, to as int);
    let entries = req.entries();
    let mut i: usize = 0;
    while i < entries.len()
        invariant
            i <= entries@.len(),
            from <= to <= words@.len(),
            part == words@.subrange(from as int, to as int),
            entries@ == req.listing(),
            bag::canonical(entries@),
            forall|j: int|
                0 <= j < i ==> (#[trigger] entries@[j]).1 <= occurrences(part, entries@[j].0),
        decreases entries@.len() - i,
    {
        let (s, need): (u32, u32) = entries[i];
        if count_word(words, from, to, s) < need as usize {
            proof {
                bag::lemma_entry(entries@, i as int);
                assert(!(req@(s) <= occurrences(part, s)));
            }
            return false;
        }
        i += 1;
    }
    proof {
        assert forall|s: u32| #[trigger] req@(s) <= occurrences(part, s) by {
            if req@(s) > 0 {
                let j = bag::lemma_some_entry(entries@, s);
                bag::lemma_entry(entries@, j);
            }
        }
    }
    true
}

/// The smaller of two positions.
pub open spec fn capped(position: usize, length: nat) -> int {
    if position <= length {
        position as int
    } else {
        length as int
    }
}

/// Whether an entry of a table, if there is one, is supplied.
pub open spec fn entry_supplied(table: Seq<Need>, x: int, words: Seq<u32>) -> bool {
    x < table.len() && table[x] is Some ==> supplies(words, table[x]->0)
}

/// Whether the sentence supplies what state `x` needs on both sides of a span.
pub open spec fn is_admitted(
    x: int,
    start: usize,
    end: usize,
    words: Seq<u32>,
    left: Seq<Need>,
    right: Seq<Need>,
) -> bool {
    &&& entry_supplied(left, x, words.take(capped(start, words.len())))
    &&& entry_supplied(right, x, words.skip(capped(end, words.len())))
}

/// The tables of obligatory leaves: inside each state, and on either side of it.
#[derive(Debug)]
pub struct ObligationTables {
    pub mic: Vec<Option<Bag>>,
    pub req_left: Vec<Option<Bag>>,
    pub req_right: Vec<Option<Bag>>,
}

impl ObligationTables {
    /// Whether these are the greatest tables that the rules allow.
    pub open spec fn describes(
        &self,
        rules: Seq<TokenRule>,
        n: nat,
        roots: Seq<usize>,
    ) -> bool {
        &&& needs::is_inside(rules, n, needs::needs(self.mic@))
        &&& needs::is_outside(
            rules,
            roots,
            needs::needs(self.mic@),
            true,
            needs::needs(self.req_left@),
        )
        &&& needs::is_outside(
            rules,
            roots,
            needs::needs(self.mic@),
            false,
            needs::needs(self.req_right@),
        )
    }

    /// Whether the sentence supplies what a partial parse needs: the state `left` over
    /// the span from `start` to `end`. Otherwise the partial parse can be discarded.
    pub fn admits(&self, left: StateId, start: usize, end: usize, words: &Vec<u32>) -> (r: bool)
        ensures
            r == is_admitted(
                left.0 as int,
                start,
                end,
                words@,
                needs::needs(self.req_left@),
                needs::needs(self.req_right@),
            ),
    {
        let n: usize = words.len();
        let x: usize = left.index();
        let from: usize = if start <= n {
            start
        } else {
            n
        };
        let to: usize = if end <= n {
            end
        } else {
            n
        };
        proof {
            assert(words@.subrange(0, from as int) =~= words@.take(capped(start, n as nat)));
            assert(words@.subrange(to as int, n as int) =~= words@.skip(capped(end, n as nat)));
        }
        if x < self.req_left.len() {
            assert(needs::needs(self.req_left@)[x as int] == needs::need_in(
                self.req_left@[x as int],
            ));
            if let Some(req) = &self.req_left[x] {
                if !supply_covers(req, words, 0, from) {
                    return false;
                }
            }
        }
        if x < self.req_right.len() {
            assert(needs::needs(self.req_right@)[x as int] == needs::need_in(
                self.req_right@[x as int],
            ));
            if let Some(req) = &self.req_right[x] {
                if !supply_covers(req, words, to, n) {
                    return false;
                }
            }
        }
        true
    }
}

/// Whether counts get too large for the tables at some stage.
pub open spec fn tables_too_large(rules: Seq<TokenRule>, n: nat, roots: Seq<usize>) -> bool {
    ||| needs::inside_too_large(rules, n)
    ||| exists|inside: Seq<Need>, left: bool|
        needs::is_inside(rules, n, inside) && #[trigger] needs::outside_too_large(
            rules,
            roots,
            inside,
            left,
        )
}

/// Computes the tables of obligatory leaves; `None` where counts get too large.
pub fn compute_obligatory(
    num_states: usize,
    flat_rules: &Vec<FlatRule>,
    accepting: &Vec<usize>,
) -> (r: Option<ObligationTables>)
    requires
        needs::rules_below(needs::token_rules(flat_rules@), num_states as nat),
        forall|k: int| 0 <= k < accepting@.len() ==> (#[trigger] accepting@[k]) < num_states,
    ensures
        match r {
            Some(tables) => tables.describes(
                needs::token_rules(flat_rules@),
                num_states as nat,
                accepting@,
            ),
            None => tables_too_large(
                needs::token_rules(flat_rules@),
                num_states as nat,
                accepting@,
            ),
        },
{
    let mic = match inside_table(num_states, flat_rules) {
        Some(mic) => mic,
        None => {
            return None;
        },
    };
    assert(needs::needs(mic@).len() == mic@.len());
    let req_left = match outside_table(flat_rules, accepting, &mic, true) {
        Some(table) => table,
        None => {
            return None;
        },
    };
    let req_right = match outside_table(flat_rules, accepting, &mic, false) {
        Some(table) => table,
        None => {
            return None;
        },
    };
    Some(ObligationTables { mic, req_left, req_right })
}

/// A partial parse that some completion extends to a parse of the sentence is never
/// discarded: what stands on either side of it supplies all obligatory leaves.
pub proof fn law_filter_keeps_completable_items(
    rules: Seq<TokenRule>,
    roots: Seq<usize>,
    inside: Seq<Need>,
    left: Seq<Need>,
    right: Seq<Need>,
    root: usize,
    steps: Seq<Descent>,
    x: int,
    start: usize,
    end: usize,
    words: Seq<u32>,
)
    requires
        needs::rules_below(rules, inside.len()),
        needs::is_inside(rules, inside.len(), inside),
        needs::is_outside(rules, roots, inside, true, left),
        needs::is_outside(rules, roots, inside, false, right),
        roots.contains(root),
        laws::leads_to(rules, root as int, steps, x),
        forall|s: u32| #[trigger]
            laws::side_leaves(rules, steps, true, s) == occurrences(
                words.take(capped(start, words.len())),
                s,
            ),
        forall|s: u32| #[trigger]
            laws::side_leaves(rules, steps, false, s) == occurrences(
                words.skip(capped(end, words.len())),
                s,
            ),
    ensures
        is_admitted(x, start, end, words, left, right),
{
    let before = words.take(capped(start, words.len()));
    let after = words.skip(capped(end, words.len()));
    if x < left.len() && left[x] is Some {
        let need = left[x]->0;
        assert forall|s: u32| #[trigger] need(s) <= occurrences(before, s) by {
            laws::law_outside_is_obligatory(rules, roots, inside, true, left, root, steps, x, s);
            assert(laws::side_leaves(rules, steps, true, s) == occurrences(before, s));
        }
    }
    if x < right.len() && right[x] is Some {
        let need = right[x]->0;
        assert forall|s: u32| #[trigger] need(s) <= occurrences(after, s) by {
            laws::law_outside_is_obligatory(rules, roots, inside, false, right, root, steps, x, s);
            assert(laws::side_leaves(rules, steps, false, s) == occurrences(after, s));
        }
    }
}

} // verus!
