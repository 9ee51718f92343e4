//! Grouping transitions by children and result.
use crate::ids::Symbol;
use crate::symbol_set::SymbolSet;
use crate::tables::KeyTable;
use crate::terms;
use crate::traits;
use crate::traits::{append_closed, AutomatonState, CondensedRule};
use vstd::prelude::*;

verus! {

/// The words of states, one after the other, each with its end marked.
pub open spec fn states_word<S: AutomatonState>(states: Seq<S>) -> Seq<u32>
    decreases states.len(),
{
    if states.len() == 0 {
        Seq::empty()
    } else {
        states_word(states.drop_last()) + traits::closed_word(states.last().key())
    }
}

/// The word of a group: the number of children, the children and the result.
pub open spec fn group_word<S: AutomatonState>(children: Seq<S>, result: S) -> Seq<u32> {
    terms::number_word(children.len() as usize) + (states_word(children) + result.key())
}

proof fn lemma_states_word<S: AutomatonState>(a: Seq<S>, x: Seq<u32>, b: Seq<S>, y: Seq<u32>)
    requires
        a.len() == b.len(),
        states_word(a) + x == states_word(b) + y,
    ensures
        a == b,
        x == y,
    decreases a.len(),
{
    if a.len() == 0 {
        assert(states_word(a) + x =~= x);
        assert(states_word(b) + y =~= y);
        assert(a =~= b);
    } else {
        let p = traits::closed_word(a.last().key()) + x;
        let q = traits::closed_word(b.last().key()) + y;
        assert(states_word(a) + x =~= states_word(a.drop_last()) + p);
        assert(states_word(b) + y =~= states_word(b.drop_last()) + q);
        lemma_states_word(a.drop_last(), p, b.drop_last(), q);
        traits::lemma_closed_word(a.last().key(), x, b.last().key(), y);
        S::key_injective(a.last(), b.last());
        assert(a =~= a.drop_last().push(a.last()));
        assert(b =~= b.drop_last().push(b.last()));
    }
}

/// Different groups have different words.
pub proof fn lemma_group_word<S: AutomatonState>(a: Seq<S>, p: S, b: Seq<S>, q: S)
    requires
        a.len() <= usize::MAX,
        b.len() <= usize::MAX,
        group_word(a, p) == group_word(b, q),
    ensures
        a == b,
        p == q,
{
    let x = group_word(a, p);
    let y = group_word(b, q);
    assert(x.take(2) =~= terms::number_word(a.len() as usize));
    assert(y.take(2) =~= terms::number_word(b.len() as usize));
    terms::lemma_number_word(a.len() as usize, b.len() as usize);
    assert(x.skip(2) =~= states_word(a) + p.key());
    assert(y.skip(2) =~= states_word(b) + q.key());
    lemma_states_word(a, p.key(), b, q.key());
    S::key_injective(p, q);
}

pub(crate) fn write_group_word<S: AutomatonState>(children: &Vec<S>, result: &S) -> (w: Vec<u32>)
    ensures
        w@ == group_word(children@, *result),
        children@.len() <= usize::MAX,
{
    let n: usize = children.len();
    let mut w: Vec<u32> = vec![
        (n as u64 / 0x1_0000_0000) as u32,
        (n as u64 % 0x1_0000_0000) as u32,
    ];
    let ghost head = terms::number_word(n);
    assert(w@ =~= head);
    let mut i: usize = 0;
    assert(children@.take(0) =~= Seq::empty());
    assert(w@ =~= head + states_word(children@.take(0)));
    while i < children.len()
        invariant
            i <= children@.len(),
            w@ == head + states_word(children@.take(i as int)),
        decreases children@.len() - i,
    {
        let k = children[i].to_key();
        append_closed(&mut w, &k);
        proof {
            let now = children@.take(i + 1);
            assert(now.drop_last() =~= children@.take(i as int));
            assert(w@ =~= head + states_word(now));
        }
        i += 1;
    }
    assert(children@.take(i as int) =~= children@);
    let mut k = result.to_key();
    w.append(&mut k);
    assert(w@ =~= group_word(children@, *result));
    w
}

/// Whether no two condensed rules have the same children and the same result.
pub open spec fn distinct_groups<S>(rules: Seq<CondensedRule<S>>) -> bool {
    forall|i: int, j: int|
        0 <= i < j < rules.len() ==> !((#[trigger] rules[i]).children@ == (
        #[trigger] rules[j]).children@ && rules[i].result == rules[j].result)
}

/// Condensed rules under construction.
pub struct Groups<S> {
    rules: Vec<CondensedRule<S>>,
    index: KeyTable,
}

impl<S: AutomatonState> Groups<S> {
    /// Whether the table finds exactly the rules.
    pub closed spec fn wf(&self) -> bool {
        &&& forall|k: int|
            0 <= k < self.rules@.len() ==> {
                let word = group_word((#[trigger] self.rules@[k]).children@, self.rules@[k].result);
                self.index@.dom().contains(word) && self.index@[word] == k
            }
        &&& forall|w: Seq<u32>| #[trigger]
            self.index@.dom().contains(w) ==> self.index@[w] < self.rules@.len() && group_word(
                self.rules@[self.index@[w] as int].children@,
                self.rules@[self.index@[w] as int].result,
            ) == w
    }

    /// The rules so far.
    pub closed spec fn list(&self) -> Seq<CondensedRule<S>> {
        self.rules@
    }

    /// No rules.
    pub fn new() -> (g: Self)
        ensures
            g.wf(),
            g.list() == Seq::<CondensedRule<S>>::empty(),
    {
        Groups { rules: Vec::new(), index: KeyTable::new() }
    }

    /// Adds the transitions of the listed symbols from `children` to `result`.
    pub fn add_symbols(&mut self, children: Vec<S>, result: S, symbols: &[Symbol])
        requires
            old(self).wf(),
        ensures
            final(self).wf(),
            forall|f: Symbol, c: Seq<S>, q: S| #[trigger]
                traits::some_covers(final(self).list(), f, c, q) <==> (traits::some_covers(
                    old(self).list(),
                    f,
                    c,
                    q,
                ) || (c == children@ && q == result && symbols@.contains(f))),
    {
        let ghost before = self.rules@;
        let ghost table = self.index@;
        let ghost tuple = children@;
        let word = write_group_word(&children, &result);
        let ghost w = word@;
        match self.index.get(word.as_slice()) {
            Some(position) => {
                let ghost at = position as int;
                assert(table.dom().contains(w));
                let stored: usize = self.rules[position].children.len();
                proof {
                    assert(before[at].children@.len() == stored);
                    lemma_group_word(before[at].children@, before[at].result, tuple, result);
                }
                let mut i: usize = 0;
                while i < symbols.len()
                    invariant
                        i <= symbols@.len(),
                        at == position,
                        self.rules@.len() == before.len(),
                        position < before.len(),
                        self.index@ == table,
                        forall|k: int|
                            0 <= k < before.len() ==> (#[trigger] self.rules@[k]).children@
                                == before[k].children@ && self.rules@[k].result
                                == before[k].result,
                        forall|k: int|
                            0 <= k < before.len() && k != at ==> (
                            #[trigger] self.rules@[k]).symbols@ == before[k].symbols@,
                        forall|f: Symbol| #[trigger]
                            self.rules@[at].symbols@.contains(f) <==> (
                            before[at].symbols@.contains(f) || symbols@.take(i as int).contains(f)),
                    decreases symbols@.len() - i,
                {
                    let ghost then = self.rules@;
                    let f = symbols[i];
                    self.rules[position].symbols.insert(f);
                    proof {
                        let seen = symbols@.take(i as int);
                        assert(symbols@.take(i + 1) =~= seen.push(f));
                        assert forall|g: Symbol| #[trigger]
                            self.rules@[at].symbols@.contains(g) <==> (
                        before[at].symbols@.contains(g) || symbols@.take(i + 1).contains(g)) by {
                            assert(then[at].symbols@.contains(g) <==> (
                            before[at].symbols@.contains(g) || seen.contains(g)));
                            crate::symbol_set::lemma_push_contains(seen, f, g);
                        }
                        assert forall|k: int| 0 <= k < before.len() implies (
                        #[trigger] self.rules@[k]).children@ == before[k].children@
                            && self.rules@[k].result == before[k].result by {
                            assert(then[k].children@ == before[k].children@);
                        }
                        assert forall|k: int| 0 <= k < before.len() && k != at implies (
                        #[trigger] self.rules@[k]).symbols@ == before[k].symbols@ by {
                            assert(then[k].symbols@ == before[k].symbols@);
                        }
                    }
                    i += 1;
                }
                proof {
                    assert(symbols@.take(i as int) =~= symbols@);
                    let now = self.rules@;
                    assert forall|f: Symbol, c: Seq<S>, q: S| #[trigger]
                        traits::some_covers(now, f, c, q) <==> (traits::some_covers(
                        before,
                        f,
                        c,
                        q,
                    ) || (c == tuple && q == result && symbols@.contains(f))) by {
                        if traits::some_covers(now, f, c, q) {
                            let k = choose|k: int|
                                0 <= k < now.len() && traits::condensed_covers(
                                    #[trigger] now[k],
                                    f,
                                    c,
                                    q,
                                );
                            if k != at || before[at].symbols@.contains(f) {
                                assert(traits::condensed_covers(before[k], f, c, q));
                            }
                        }
                        if traits::some_covers(before, f, c, q) {
                            let k = choose|k: int|
                                0 <= k < before.len() && traits::condensed_covers(
                                    #[trigger] before[k],
                                    f,
                                    c,
                                    q,
                                );
                            assert(traits::condensed_covers(now[k], f, c, q));
                        }
                        if c == tuple && q == result && symbols@.contains(f) {
                            assert(traits::condensed_covers(now[at], f, c, q));
                        }
                    }
                    assert forall|k: int| 0 <= k < now.len() implies {
                        let word = group_word((#[trigger] now[k]).children@, now[k].result);
                        table.dom().contains(word) && table[word] == k
                    } by {
                        assert(table.dom().contains(
                            group_word(before[k].children@, before[k].result),
                        ));
                    }
                }
            },
            None => {
                let position: usize = self.rules.len();
                let rule = CondensedRule {
                    children,
                    symbols: SymbolSet::from_slice(symbols),
                    result,
                };
                let ghost added = rule;
                self.index.insert(word, position);
                self.rules.push(rule);
                proof {
                    let now = self.rules@;
                    let n = before.len() as int;
                    assert forall|f: Symbol, c: Seq<S>, q: S| #[trigger]
                        traits::some_covers(now, f, c, q) <==> (traits::some_covers(
                        before,
                        f,
                        c,
                        q,
                    ) || (c == tuple && q == result && symbols@.contains(f))) by {
                        if traits::some_covers(now, f, c, q) {
                            let k = choose|k: int|
                                0 <= k < now.len() && traits::condensed_covers(
                                    #[trigger] now[k],
                                    f,
                                    c,
                                    q,
                                );
                            if k < n {
                                assert(traits::condensed_covers(before[k], f, c, q));
                            }
                        }
                        if traits::some_covers(before, f, c, q) {
                            let k = choose|k: int|
                                0 <= k < before.len() && traits::condensed_covers(
                                    #[trigger] before[k],
                                    f,
                                    c,
                                    q,
                                );
                            assert(traits::condensed_covers(now[k], f, c, q));
                        }
                        if c == tuple && q == result && symbols@.contains(f) {
                            assert(traits::condensed_covers(now[n], f, c, q));
                        }
                    }
                    assert forall|k: int| 0 <= k < now.len() implies {
                        let word = group_word((#[trigger] now[k]).children@, now[k].result);
                        self.index@.dom().contains(word) && self.index@[word] == k
                    } by {
                        if k < n {
                            assert(now[k] == before[k]);
                            assert(table.dom().contains(
                                group_word(before[k].children@, before[k].result),
                            ));
                        }
                    }
                    assert forall|x: Seq<u32>| #[trigger] self.index@.dom().contains(x) implies
                        self.index@[x] < now.len() && group_word(
                        now[self.index@[x] as int].children@,
                        now[self.index@[x] as int].result,
                    ) == x by {
                        if x != w {
                            assert(table.dom().contains(x));
                            assert(now[table[x] as int] == before[table[x] as int]);
                        }
                    }
                }
            },
        }
    }

    /// The rules, each with its own children and result.
    pub fn into_rules(self) -> (r: Vec<CondensedRule<S>>)
        requires
            self.wf(),
        ensures
            r@ == self.list(),
            distinct_groups(r@),
    {
        proof {
            let rules = self.rules@;
            assert forall|i: int, j: int| 0 <= i < j < rules.len() implies !((
            #[trigger] rules[i]).children@ == (#[trigger] rules[j]).children@ && rules[i].result
                == rules[j].result) by {
                let a = group_word(rules[i].children@, rules[i].result);
                let b = group_word(rules[j].children@, rules[j].result);
                assert(self.index@[a] == i);
                assert(self.index@[b] == j);
            }
        }
        self.rules
    }
}

} // verus!
