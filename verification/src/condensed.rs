//! Grouping the rules of an automaton by children and result.
use crate::automaton;
use crate::automaton::RuleModel;
use crate::ids::{StateId, Symbol};
use crate::key_index::copy_states;
use crate::symbol_set::SymbolSet;
use crate::traits;
use crate::traits::CondensedRule;
use vstd::prelude::*;

verus! {

/// Whether `a` comes before `b` in dictionary order.
pub open spec fn states_less(a: Seq<StateId>, b: Seq<StateId>) -> bool {
    exists|p: int| #[trigger] splits_at(a, b, p)
}

/// Whether `a` and `b` agree up to `p` and `a` is the smaller there.
pub open spec fn splits_at(a: Seq<StateId>, b: Seq<StateId>, p: int) -> bool {
    &&& 0 <= p <= a.len()
    &&& p < b.len()
    &&& forall|j: int| 0 <= j < p ==> #[trigger] a[j] == b[j]
    &&& p == a.len() || a[p].0 < b[p].0
}

/// Whether one group comes before another: by children, then by result.
pub open spec fn group_less(
    a: Seq<StateId>,
    p: StateId,
    b: Seq<StateId>,
    q: StateId,
) -> bool {
    states_less(a, b) || (a == b && p.0 < q.0)
}

/// How two groups compare.
#[derive(Clone, Copy, PartialEq, Eq, Structural, Debug)]
pub enum Placement {
    Before,
    Same,
    After,
}

pub proof fn lemma_states_less_transitive(a: Seq<StateId>, b: Seq<StateId>, c: Seq<StateId>)
    requires
        states_less(a, b),
        states_less(b, c),
    ensures
        states_less(a, c),
{
    let p = choose|p: int| splits_at(a, b, p);
    let q = choose|q: int| splits_at(b, c, q);
    let r = if p < q { p } else { q };
    assert forall|j: int| 0 <= j < r implies #[trigger] a[j] == c[j] by {
        assert(a[j] == b[j]);
        assert(b[j] == c[j]);
    }
    if p < q {
        assert(b[p] == c[p]);
    } else if q < p {
        assert(a[q] == b[q]);
    }
    assert(splits_at(a, c, r));
}

pub proof fn lemma_states_less_irreflexive(a: Seq<StateId>, b: Seq<StateId>)
    requires
        states_less(a, b),
    ensures
        a != b,
        !states_less(b, a),
{
    let p = choose|p: int| splits_at(a, b, p);
    if states_less(b, a) {
        let q = choose|q: int| splits_at(b, a, q);
        if p < q {
            assert(b[p] == a[p]);
        } else if q < p {
            assert(a[q] == b[q]);
        }
    }
}

pub proof fn lemma_group_less_transitive(
    a: Seq<StateId>,
    p: StateId,
    b: Seq<StateId>,
    q: StateId,
    c: Seq<StateId>,
    r: StateId,
)
    requires
        group_less(a, p, b, q),
        group_less(b, q, c, r),
    ensures
        group_less(a, p, c, r),
{
    if states_less(a, b) && states_less(b, c) {
        lemma_states_less_transitive(a, b, c);
    }
}

/// Compares two groups.
fn place(a: &[StateId], p: StateId, b: &[StateId], q: StateId) -> (r: Placement)
    ensures
        r == Placement::Before <==> group_less(a@, p, b@, q),
        r == Placement::After <==> group_less(b@, q, a@, p),
        r == Placement::Same <==> (a@ == b@ && p == q),
{
    let mut i: usize = 0;
    while i < a.len() && i < b.len()
        invariant
            i <= a@.len(),
            i <= b@.len(),
            forall|j: int| 0 <= j < i ==> #[trigger] a@[j] == b@[j],
        decreases a@.len() - i,
    {
        if a[i].0 < b[i].0 {
            proof {
                assert(splits_at(a@, b@, i as int));
                lemma_states_less_irreflexive(a@, b@);
            }
            return Placement::Before;
        }
        if b[i].0 < a[i].0 {
            proof {
                assert(splits_at(b@, a@, i as int));
                lemma_states_less_irreflexive(b@, a@);
            }
            return Placement::After;
        }
        i += 1;
    }
    if a.len() < b.len() {
        proof {
            assert(splits_at(a@, b@, i as int));
            lemma_states_less_irreflexive(a@, b@);
        }
        return Placement::Before;
    }
    if b.len() < a.len() {
        proof {
            assert(splits_at(b@, a@, i as int));
            lemma_states_less_irreflexive(b@, a@);
        }
        return Placement::After;
    }
    proof {
        assert(a@ =~= b@);
        if states_less(a@, b@) {
            lemma_states_less_irreflexive(a@, b@);
        }
    }
    if p.0 < q.0 {
        Placement::Before
    } else if q.0 < p.0 {
        Placement::After
    } else {
        Placement::Same
    }
}

/// Whether the groups increase.
pub open spec fn groups_increase(groups: Seq<CondensedRule<StateId>>) -> bool {
    forall|k: int, l: int|
        0 <= k < l < groups.len() ==> group_less(
            (#[trigger] groups[k]).children@,
            groups[k].result,
            (#[trigger] groups[l]).children@,
            groups[l].result,
        )
}

/// Whether a group holds a symbol.
pub open spec fn holds_symbol(group: CondensedRule<StateId>) -> bool {
    exists|f: Symbol| group.symbols@.contains(f)
}

/// Whether the groups are increasing, none is empty, and together they hold the
/// transitions of the rules.
pub open spec fn is_condensed(
    rules: Seq<RuleModel>,
    groups: Seq<CondensedRule<StateId>>,
) -> bool {
    &&& groups_increase(groups)
    &&& forall|k: int| 0 <= k < groups.len() ==> holds_symbol(#[trigger] groups[k])
    &&& forall|f: Symbol, children: Seq<StateId>, q: StateId| #[trigger]
        traits::some_covers(groups, f, children, q) <==> automaton::has_transition(
            rules,
            f,
            children,
            q,
        )
}

/// The first group that is not before the given one.
fn group_position(
    groups: &Vec<CondensedRule<StateId>>,
    children: &[StateId],
    result: StateId,
) -> (r: (usize, bool))
    requires
        groups_increase(groups@),
    ensures
        r.0 <= groups@.len(),
        forall|k: int|
            0 <= k < r.0 ==> group_less(
                (#[trigger] groups@[k]).children@,
                groups@[k].result,
                children@,
                result,
            ),
        r.1 ==> r.0 < groups@.len() && groups@[r.0 as int].children@ == children@
            && groups@[r.0 as int].result == result,
        !r.1 ==> forall|k: int|
            r.0 <= k < groups@.len() ==> group_less(
                children@,
                result,
                (#[trigger] groups@[k]).children@,
                groups@[k].result,
            ),
{
    let mut low: usize = 0;
    let mut high: usize = groups.len();
    while low < high
        invariant
            low <= high <= groups@.len(),
            groups_increase(groups@),
            forall|k: int|
                0 <= k < low ==> group_less(
                    (#[trigger] groups@[k]).children@,
                    groups@[k].result,
                    children@,
                    result,
                ),
            forall|k: int|
                high <= k < groups@.len() ==> group_less(
                    children@,
                    result,
                    (#[trigger] groups@[k]).children@,
                    groups@[k].result,
                ),
        decreases high - low,
    {
        let middle: usize = low + (high - low) / 2;
        let group = &groups[middle];
        match place(group.children.as_slice(), group.result, children, result) {
            Placement::Same => {
                return (middle, true);
            },
            Placement::Before => {
                proof {
                    assert forall|k: int| 0 <= k < middle + 1 implies group_less(
                        (#[trigger] groups@[k]).children@,
                        groups@[k].result,
                        children@,
                        result,
                    ) by {
                        if k < middle {
                            lemma_group_less_transitive(
                                groups@[k].children@,
                                groups@[k].result,
                                groups@[middle as int].children@,
                                groups@[middle as int].result,
                                children@,
                                result,
                            );
                        }
                    }
                }
                low = middle + 1;
            },
            Placement::After => {
                proof {
                    assert forall|k: int| middle <= k < groups@.len() implies group_less(
                        children@,
                        result,
                        (#[trigger] groups@[k]).children@,
                        groups@[k].result,
                    ) by {
                        if k > middle {
                            lemma_group_less_transitive(
                                children@,
                                result,
                                groups@[middle as int].children@,
                                groups@[middle as int].result,
                                groups@[k].children@,
                                groups@[k].result,
                            );
                        }
                    }
                }
                high = middle;
            },
        }
    }
    (low, false)
}

/// Adds one transition to the groups.
pub fn add_to_groups(
    groups: &mut Vec<CondensedRule<StateId>>,
    f: Symbol,
    children: &[StateId],
    result: StateId,
)
    requires
        groups_increase(old(groups)@),
        forall|k: int|
            0 <= k < old(groups)@.len() ==> holds_symbol(#[trigger] old(groups)@[k]),
    ensures
        groups_increase(final(groups)@),
        forall|k: int|
            0 <= k < final(groups)@.len() ==> holds_symbol(#[trigger] final(groups)@[k]),
        forall|g: Symbol, c: Seq<StateId>, q: StateId| #[trigger]
            traits::some_covers(final(groups)@, g, c, q) <==> (traits::some_covers(
                old(groups)@,
                g,
                c,
                q,
            ) || (g == f && c == children@ && q == result)),
{
    let ghost before = groups@;
    let (position, found) = group_position(groups, children, result);
    if found {
        let ghost at = position as int;
        groups[position].symbols.insert(f);
        proof {
            assert forall|k: int| 0 <= k < before.len() implies {
                &&& (#[trigger] groups@[k]).children@ == before[k].children@
                &&& groups@[k].result == before[k].result
                &&& groups@[k].symbols@ == (if k == at {
                    before[k].symbols@.insert(f)
                } else {
                    before[k].symbols@
                })
            } by {}
            assert forall|k: int, l: int| 0 <= k < l < groups@.len() implies group_less(
                (#[trigger] groups@[k]).children@,
                groups@[k].result,
                (#[trigger] groups@[l]).children@,
                groups@[l].result,
            ) by {
                assert(group_less(
                    before[k].children@,
                    before[k].result,
                    before[l].children@,
                    before[l].result,
                ));
            }
            assert forall|k: int| 0 <= k < groups@.len() implies holds_symbol(
                #[trigger] groups@[k],
            ) by {
                let g = choose|g: Symbol| before[k].symbols@.contains(g);
                assert(groups@[k].symbols@.contains(g));
            }
            assert forall|g: Symbol, c: Seq<StateId>, q: StateId| #[trigger]
                traits::some_covers(groups@, g, c, q) <==> (traits::some_covers(before, g, c, q)
                    || (g == f && c == children@ && q == result)) by {
                if traits::some_covers(groups@, g, c, q) {
                    let k = choose|k: int|
                        0 <= k < groups@.len() && traits::condensed_covers(
                            #[trigger] groups@[k],
                            g,
                            c,
                            q,
                        );
                    if before[k].symbols@.contains(g) {
                        assert(traits::condensed_covers(before[k], g, c, q));
                    }
                }
                if traits::some_covers(before, g, c, q) {
                    let k = choose|k: int|
                        0 <= k < before.len() && traits::condensed_covers(
                            #[trigger] before[k],
                            g,
                            c,
                            q,
                        );
                    assert(traits::condensed_covers(groups@[k], g, c, q));
                }
                if g == f && c == children@ && q == result {
                    assert(traits::condensed_covers(groups@[at], g, c, q));
                }
            }
        }
    } else {
        let mut symbols = SymbolSet::new();
        symbols.insert(f);
        let group = CondensedRule { children: copy_states(children), symbols, result };
        let ghost at = position as int;
        let ghost added = group;
        groups.insert(position, group);
        proof {
            assert(groups@ =~= before.insert(at, added));
            assert forall|k: int| 0 <= k < groups@.len() implies #[trigger] groups@[k] == (if k
                < at {
                before[k]
            } else if k == at {
                added
            } else {
                before[k - 1]
            }) by {}
            assert forall|k: int, l: int| 0 <= k < l < groups@.len() implies group_less(
                (#[trigger] groups@[k]).children@,
                groups@[k].result,
                (#[trigger] groups@[l]).children@,
                groups@[l].result,
            ) by {
                if k < at && l == at {
                    assert(group_less(before[k].children@, before[k].result, children@, result));
                } else if k == at {
                    assert(group_less(
                        children@,
                        result,
                        before[l - 1].children@,
                        before[l - 1].result,
                    ));
                }
            }
            assert forall|k: int| 0 <= k < groups@.len() implies holds_symbol(
                #[trigger] groups@[k],
            ) by {
                if k == at {
                    assert(groups@[k].symbols@.contains(f));
                } else {
                    let m = if k < at { k } else { k - 1 };
                    let g = choose|g: Symbol| before[m].symbols@.contains(g);
                    assert(groups@[k].symbols@.contains(g));
                }
            }
            assert forall|g: Symbol, c: Seq<StateId>, q: StateId| #[trigger]
                traits::some_covers(groups@, g, c, q) <==> (traits::some_covers(before, g, c, q)
                    || (g == f && c == children@ && q == result)) by {
                if traits::some_covers(groups@, g, c, q) {
                    let k = choose|k: int|
                        0 <= k < groups@.len() && traits::condensed_covers(
                            #[trigger] groups@[k],
                            g,
                            c,
                            q,
                        );
                    if k < at {
                        assert(traits::condensed_covers(before[k], g, c, q));
                    } else if k > at {
                        assert(traits::condensed_covers(before[k - 1], g, c, q));
                    }
                }
                if traits::some_covers(before, g, c, q) {
                    let k = choose|k: int|
                        0 <= k < before.len() && traits::condensed_covers(
                            #[trigger] before[k],
                            g,
                            c,
                            q,
                        );
                    if k < at {
                        assert(traits::condensed_covers(groups@[k], g, c, q));
                    } else {
                        assert(traits::condensed_covers(groups@[k + 1], g, c, q));
                    }
                }
                if g == f && c == children@ && q == result {
                    assert(traits::condensed_covers(groups@[at], g, c, q));
                }
            }
        }
    }
}

/// A copy of one group.
pub fn copy_group(group: &CondensedRule<StateId>) -> (c: CondensedRule<StateId>)
    ensures
        c.children@ == group.children@,
        c.symbols@ == group.symbols@,
        c.result == group.result,
{
    CondensedRule {
        children: copy_states(group.children.as_slice()),
        symbols: group.symbols.duplicate(),
        result: group.result,
    }
}

} // verus!
