//! Generated automata for comparing intersection algorithms.
use crate::automaton;
use crate::automaton::{Automaton, RuleModel};
use crate::builder::ExplicitBuilder;
use crate::explicit::Explicit;
use crate::ids::{StateId, Symbol};
use crate::weight;
use crate::weight::Weight;
use vstd::prelude::*;

verus! {

/// The symbol of concatenation.
pub const CONCAT: u32 = 0;

/// The symbol of the first word.
pub const WORD_BASE: u32 = 1;

/// The first lexical symbol.
pub const LEX_BASE: u32 = 1_000;

/// The first binary symbol.
pub const BIN_BASE: u32 = 10_000;

/// The symbol of a word.
pub open spec fn word_of(word: int) -> Symbol {
    Symbol((WORD_BASE + word) as u32)
}

/// The symbol of a word.
pub fn word_symbol(word: usize) -> (f: Symbol)
    requires
        word <= u32::MAX - WORD_BASE,
    ensures
        f == word_of(word as int),
{
    Symbol(WORD_BASE + word as u32)
}

/// The symbol of one of the lexical labels of a word.
pub fn lex_symbol(word: usize, variant: usize, lexical_labels: usize) -> (f: Symbol)
    requires
        word * lexical_labels + variant <= u32::MAX - LEX_BASE,
    ensures
        f.0 == LEX_BASE + word * lexical_labels + variant,
{
    proof {
        assert(word * lexical_labels >= 0) by (nonlinear_arith);
    }
    let offset: usize = word * lexical_labels + variant;
    Symbol(LEX_BASE + offset as u32)
}

/// The symbol of a binary label.
pub fn bin_symbol(op: usize) -> (f: Symbol)
    requires
        op <= u32::MAX - BIN_BASE,
    ensures
        f.0 == BIN_BASE + op,
{
    Symbol(BIN_BASE + op as u32)
}

/// A rule of weight one.
pub open spec fn plain_rule(f: Symbol, children: Seq<StateId>, q: StateId) -> RuleModel {
    RuleModel { symbol: f, children, result: q, weight: Weight { bits: weight::ONE_BITS } }
}

/// The state with a number.
pub open spec fn state(i: int) -> StateId {
    StateId(i as u32)
}

/// One rule without children for each leaf, with result `q`.
pub open spec fn leaf_block(leaves: Seq<Symbol>, q: int) -> Seq<RuleModel> {
    Seq::new(leaves.len(), |j: int| plain_rule(leaves[j], Seq::empty(), state(q)))
}

/// The rules without children for the first `n` states.
pub open spec fn leaf_rules(leaves: Seq<Symbol>, n: nat) -> Seq<RuleModel>
    decreases n,
{
    if n == 0 {
        Seq::empty()
    } else {
        leaf_rules(leaves, (n - 1) as nat) + leaf_block(leaves, n - 1)
    }
}

/// The result of a binary rule.
pub open spec fn parent_of(left: int, right: int, shift: int, states: int) -> int {
    (left * 31 + right * 17 + shift) % states
}

/// The binary rules with the given left child and one of the first `n` right children.
pub open spec fn binary_row(
    f: Symbol,
    shift: usize,
    left: int,
    states: nat,
    n: nat,
) -> Seq<RuleModel> {
    Seq::new(
        n,
        |right: int|
            plain_rule(
                f,
                seq![state(left), state(right)],
                state(parent_of(left, right, shift as int, states as int)),
            ),
    )
}

/// The binary rules with one of the first `n` left children.
pub open spec fn binary_rules(f: Symbol, shift: usize, states: nat, n: nat) -> Seq<RuleModel>
    decreases n,
{
    if n == 0 {
        Seq::empty()
    } else {
        binary_rules(f, shift, states, (n - 1) as nat) + binary_row(
            f,
            shift,
            n - 1,
            states,
            states,
        )
    }
}

/// The binary rules of the first `n` symbols.
pub open spec fn all_binary_rules(
    binaries: Seq<(Symbol, usize)>,
    states: nat,
    n: nat,
) -> Seq<RuleModel>
    decreases n,
{
    if n == 0 {
        Seq::empty()
    } else {
        all_binary_rules(binaries, states, (n - 1) as nat) + binary_rules(
            binaries[n - 1].0,
            binaries[n - 1].1,
            states,
            states,
        )
    }
}

/// A generated grammar: every state has every leaf, and every binary symbol joins every
/// two states to one that depends on them and on the symbol's shift.
pub open spec fn grammar_model(
    states: nat,
    leaves: Seq<Symbol>,
    binaries: Seq<(Symbol, usize)>,
) -> Automaton {
    Automaton {
        states,
        accepting: set![state(0)],
        rules: leaf_rules(leaves, states) + all_binary_rules(binaries, states, binaries.len()),
    }
}

/// Whether no leaf and no binary symbol is given twice.
pub open spec fn distinct_symbols(leaves: Seq<Symbol>, binaries: Seq<(Symbol, usize)>) -> bool {
    &&& leaves.no_duplicates()
    &&& forall|i: int, j: int|
        0 <= i < j < binaries.len() ==> (#[trigger] binaries[i]).0 != (#[trigger] binaries[j]).0
}

/// Two lists of transitions that share none make a list in which none occurs twice.
proof fn lemma_join(a: Seq<RuleModel>, b: Seq<RuleModel>)
    requires
        automaton::unique_transitions(a),
        automaton::unique_transitions(b),
        forall|i: int, j: int|
            0 <= i < a.len() && 0 <= j < b.len() ==> !automaton::same_transition(
                #[trigger] a[i],
                #[trigger] b[j],
            ),
    ensures
        automaton::unique_transitions(a + b),
{
    let c = a + b;
    assert forall|i: int| 0 <= i < c.len() implies !#[trigger] automaton::repeats(c, i) by {
        if automaton::repeats(c, i) {
            let j = choose|j: int|
                0 <= j < i && automaton::same_transition(#[trigger] c[j], c[i]);
            if i < a.len() {
                assert(c[j] == a[j] && c[i] == a[i]);
                assert(automaton::repeats(a, i));
            } else if j >= a.len() {
                assert(c[j] == b[j - a.len()] && c[i] == b[i - a.len()]);
                assert(automaton::repeats(b, i - a.len()));
            } else {
                assert(c[j] == a[j] && c[i] == b[i - a.len()]);
            }
        }
    }
}

proof fn lemma_leaf_rules(leaves: Seq<Symbol>, n: nat)
    requires
        leaves.no_duplicates(),
        n <= u32::MAX,
    ensures
        automaton::unique_transitions(leaf_rules(leaves, n)),
        forall|i: int|
            0 <= i < leaf_rules(leaves, n).len() ==> (#[trigger] leaf_rules(
                leaves,
                n,
            )[i]).children.len() == 0 && leaf_rules(leaves, n)[i].result.0 < n,
    decreases n,
{
    if n > 0 {
        lemma_leaf_rules(leaves, (n - 1) as nat);
        let block = leaf_block(leaves, n - 1);
        assert forall|i: int| 0 <= i < block.len() implies !#[trigger] automaton::repeats(
            block,
            i,
        ) by {
            assert(forall|j: int| 0 <= j < i ==> (#[trigger] block[j]).symbol == leaves[j]);
            assert(block[i].symbol == leaves[i]);
        }
        lemma_join(leaf_rules(leaves, (n - 1) as nat), block);
    }
}

proof fn lemma_binary_rules(f: Symbol, shift: usize, states: nat, n: nat)
    requires
        n <= states <= u32::MAX,
    ensures
        automaton::unique_transitions(binary_rules(f, shift, states, n)),
        forall|i: int|
            0 <= i < binary_rules(f, shift, states, n).len() ==> {
                let rule = #[trigger] binary_rules(f, shift, states, n)[i];
                rule.symbol == f && rule.children.len() == 2 && rule.children[0].0 < n
            },
    decreases n,
{
    if n > 0 {
        lemma_binary_rules(f, shift, states, (n - 1) as nat);
        let row = binary_row(f, shift, n - 1, states, states);
        assert forall|i: int| 0 <= i < row.len() implies !#[trigger] automaton::repeats(row, i) by {
            assert(forall|j: int| 0 <= j < i ==> (#[trigger] row[j]).children[1] == state(j));
            assert(row[i].children[1] == state(i));
        }
        assert(forall|i: int|
            0 <= i < row.len() ==> (#[trigger] row[i]).children[0] == state(n - 1));
        lemma_join(binary_rules(f, shift, states, (n - 1) as nat), row);
    }
}

proof fn lemma_all_binary_rules(binaries: Seq<(Symbol, usize)>, states: nat, n: nat)
    requires
        n <= binaries.len(),
        states <= u32::MAX,
        distinct_symbols(Seq::empty(), binaries),
    ensures
        automaton::unique_transitions(all_binary_rules(binaries, states, n)),
        forall|i: int|
            0 <= i < all_binary_rules(binaries, states, n).len() ==> {
                let rule = #[trigger] all_binary_rules(binaries, states, n)[i];
                rule.children.len() == 2 && forall|k: int|
                    n <= k < binaries.len() ==> rule.symbol != (#[trigger] binaries[k]).0
            },
    decreases n,
{
    if n > 0 {
        lemma_all_binary_rules(binaries, states, (n - 1) as nat);
        let (f, shift) = binaries[n - 1];
        lemma_binary_rules(f, shift, states, states);
        let before = all_binary_rules(binaries, states, (n - 1) as nat);
        let block = binary_rules(f, shift, states, states);
        assert forall|i: int, j: int|
            0 <= i < before.len() && 0 <= j < block.len() implies !automaton::same_transition(
            #[trigger] before[i],
            #[trigger] block[j],
        ) by {
            assert(before[i].symbol != binaries[n - 1].0);
            assert(block[j].symbol == f);
        }
        lemma_join(before, block);
        let all = before + block;
        assert forall|i: int| 0 <= i < all.len() implies {
            let rule = #[trigger] all[i];
            rule.children.len() == 2 && forall|k: int|
                n <= k < binaries.len() ==> rule.symbol != (#[trigger] binaries[k]).0
        } by {
            if i < before.len() {
                assert(all[i] == before[i]);
            } else {
                assert(all[i] == block[i - before.len()]);
            }
        }
    }
}

proof fn lemma_grammar_unique(states: nat, leaves: Seq<Symbol>, binaries: Seq<(Symbol, usize)>)
    requires
        states <= u32::MAX,
        distinct_symbols(leaves, binaries),
    ensures
        automaton::unique_transitions(grammar_model(states, leaves, binaries).rules),
{
    lemma_leaf_rules(leaves, states);
    lemma_all_binary_rules(binaries, states, binaries.len());
    lemma_join(leaf_rules(leaves, states), all_binary_rules(binaries, states, binaries.len()));
}

/// Makes `n` fresh states in a new builder.
fn fresh_states(n: usize) -> (b: ExplicitBuilder)
    requires
        n < StateId::STUCK,
    ensures
        b@.states == n,
        b@.accepting == Set::<StateId>::empty(),
        b@.rules == Seq::<RuleModel>::empty(),
{
    let mut b = ExplicitBuilder::new();
    let mut i: usize = 0;
    while i < n
        invariant
            i <= n,
            n < StateId::STUCK,
            b@.states == i,
            b@.accepting == Set::<StateId>::empty(),
            b@.rules == Seq::<RuleModel>::empty(),
        decreases n - i,
    {
        let _ = b.new_state();
        i += 1;
    }
    b
}

/// The number of the result of a binary rule.
fn parent_number(left: usize, right: usize, shift: usize, states: usize) -> (p: usize)
    requires
        0 < states,
    ensures
        p == parent_of(left as int, right as int, shift as int, states as int),
        p < states,
{
    let sum: u128 = left as u128 * 31 + right as u128 * 17 + shift as u128;
    (sum % states as u128) as usize
}

/// Builds a generated grammar.
pub fn grammar_automaton(
    states: usize,
    leaves: &Vec<Symbol>,
    binaries: &Vec<(Symbol, usize)>,
) -> (r: Explicit)
    requires
        0 < states < StateId::STUCK,
        distinct_symbols(leaves@, binaries@),
        grammar_model(states as nat, leaves@, binaries@).rules.len() <= u32::MAX,
    ensures
        r@ == grammar_model(states as nat, leaves@, binaries@),
{
    let mut b = fresh_states(states);
    b.add_accepting(StateId(0));
    assert(b@.accepting =~= set![state(0)]);
    let mut q: usize = 0;
    while q < states
        invariant
            q <= states,
            0 < states < StateId::STUCK,
            b@.states == states,
            b@.accepting == set![state(0)],
            b@.rules == leaf_rules(leaves@, q as nat),
        decreases states - q,
    {
        let ghost before = b@.rules;
        let mut j: usize = 0;
        assert(before + leaf_block(leaves@, q as int).take(0) =~= before);
        while j < leaves.len()
            invariant
                q < states,
                j <= leaves@.len(),
                0 < states < StateId::STUCK,
                b@.states == states,
                b@.accepting == set![state(0)],
                b@.rules == before + leaf_block(leaves@, q as int).take(j as int),
            decreases leaves@.len() - j,
        {
            let none: Vec<StateId> = Vec::new();
            let ghost prior = b@.rules;
            b.add_rule(leaves[j], none, StateId(q as u32));
            j += 1;
            proof {
                let block = leaf_block(leaves@, q as int);
                assert(none@ =~= Seq::empty());
                assert(b@.rules =~= prior.push(block[j - 1]));
                assert(block.take(j as int) =~= block.take(j - 1).push(block[j - 1]));
                assert(b@.rules =~= before + block.take(j as int));
            }
        }
        proof {
            let block = leaf_block(leaves@, q as int);
            assert(block.take(j as int) =~= block);
        }
        q += 1;
    }
    let ghost base = b@.rules;
    let mut k: usize = 0;
    assert(base + all_binary_rules(binaries@, states as nat, 0) =~= base);
    while k < binaries.len()
        invariant
            k <= binaries@.len(),
            0 < states < StateId::STUCK,
            b@.states == states,
            b@.accepting == set![state(0)],
            b@.rules == base + all_binary_rules(binaries@, states as nat, k as nat),
        decreases binaries@.len() - k,
    {
        let ghost before = b@.rules;
        add_binary_rules(&mut b, binaries[k].0, binaries[k].1, states);
        k += 1;
        assert(b@.rules =~= base + all_binary_rules(binaries@, states as nat, k as nat));
    }
    proof {
        lemma_grammar_unique(states as nat, leaves@, binaries@);
    }
    b.build()
}

/// Adds the binary rules of one symbol.
fn add_binary_rules(b: &mut ExplicitBuilder, f: Symbol, shift: usize, states: usize)
    requires
        0 < states < StateId::STUCK,
        old(b)@.states == states,
    ensures
        final(b)@ == (Automaton {
            rules: old(b)@.rules + binary_rules(f, shift, states as nat, states as nat),
            ..old(b)@
        }),
{
    let ghost start = b@;
    let mut left: usize = 0;
    assert(start.rules + binary_rules(f, shift, states as nat, 0) =~= start.rules);
    while left < states
        invariant
            left <= states,
            0 < states < StateId::STUCK,
            start.states == states,
            b@ == (Automaton {
                rules: start.rules + binary_rules(f, shift, states as nat, left as nat),
                ..start
            }),
        decreases states - left,
    {
        let ghost before = b@.rules;
        let mut right: usize = 0;
        assert(before + binary_row(f, shift, left as int, states as nat, 0) =~= before);
        while right < states
            invariant
                left < states,
                right <= states,
                0 < states < StateId::STUCK,
                start.states == states,
                b@ == (Automaton {
                    rules: before + binary_row(
                        f,
                        shift,
                        left as int,
                        states as nat,
                        right as nat,
                    ),
                    ..start
                }),
            decreases states - right,
        {
            let ghost prior = b@.rules;
            let parent: usize = parent_number(left, right, shift, states);
            let children: Vec<StateId> = vec![StateId(left as u32), StateId(right as u32)];
            proof {
                assert(children@ =~= seq![state(left as int), state(right as int)]);
            }
            b.add_rule(f, children, StateId(parent as u32));
            right += 1;
            proof {
                let row = binary_row(f, shift, left as int, states as nat, right as nat);
                assert(b@.rules =~= prior.push(row[right - 1]));
                assert(b@.rules =~= before + row);
            }
        }
        left += 1;
        assert(b@.rules =~= start.rules + binary_rules(f, shift, states as nat, left as nat));
    }
}

/// The number of spans that start before `i` in a sentence of `len` words.
pub open spec fn spans_before(i: nat, len: nat) -> nat
    decreases i,
{
    if i == 0 {
        0
    } else {
        spans_before((i - 1) as nat, len) + (len - (i - 1)) as nat
    }
}

/// The state of the span from `i` to `j`: spans are numbered by start and then by end.
pub open spec fn span(i: int, j: int, len: nat) -> StateId {
    state(spans_before(i as nat, len) + j - i - 1)
}

/// The rule for word `i` of a sentence that repeats `vocab` words.
pub open spec fn word_rule(i: int, len: nat, vocab: int) -> RuleModel {
    plain_rule(word_of(i % vocab), Seq::empty(), span(i, i + 1, len))
}

/// The rules that split the span from `i` to `j`, at the first `n` places.
pub open spec fn split_rules(i: int, j: int, len: nat, n: nat) -> Seq<RuleModel> {
    Seq::new(
        n,
        |s: int|
            plain_rule(
                Symbol(CONCAT),
                seq![span(i, i + 1 + s, len), span(i + 1 + s, j, len)],
                span(i, j, len),
            ),
    )
}

/// The rules that split the spans of one width, for the first `n` starts.
pub open spec fn width_rules(width: int, len: nat, n: nat) -> Seq<RuleModel>
    decreases n,
{
    if n == 0 {
        Seq::empty()
    } else {
        width_rules(width, len, (n - 1) as nat) + split_rules(
            n - 1,
            n - 1 + width,
            len,
            (width - 1) as nat,
        )
    }
}

/// The rules that split spans of at most the given width.
pub open spec fn rules_up_to(width: nat, len: nat) -> Seq<RuleModel>
    decreases width,
{
    if width <= 1 {
        Seq::empty()
    } else {
        rules_up_to((width - 1) as nat, len) + width_rules(
            width as int,
            len,
            (len - width + 1) as nat,
        )
    }
}

/// The automaton of the decompositions of a sentence.
pub open spec fn span_model(len: nat, vocab: int) -> Automaton {
    Automaton {
        states: spans_before(len, len),
        accepting: set![span(0, len as int, len)],
        rules: Seq::new(len, |i: int| word_rule(i, len, vocab)) + rules_up_to(len, len),
    }
}

/// Where the spans from `i` on lie.
proof fn lemma_spans(i: nat, j: nat, len: nat)
    requires
        i <= j <= len,
    ensures
        spans_before(i, len) <= spans_before(j, len),
    decreases j,
{
    if i < j {
        lemma_spans(i, (j - 1) as nat, len);
    }
}

proof fn lemma_span_below(i: int, j: int, len: nat)
    requires
        0 <= i < j <= len,
        spans_before(len, len) <= u32::MAX,
    ensures
        span(i, j, len).0 == spans_before(i as nat, len) + j - i - 1,
        span(i, j, len).0 < spans_before(len, len),
{
    lemma_spans((i + 1) as nat, len, len);
    assert(spans_before((i + 1) as nat, len) == spans_before(i as nat, len) + (len - i));
}

/// Different spans have different states.
proof fn lemma_span_differs(i: int, j: int, k: int, l: int, len: nat)
    requires
        0 <= i < j <= len,
        0 <= k < l <= len,
        (i, j) != (k, l),
        spans_before(len, len) <= u32::MAX,
    ensures
        span(i, j, len) != span(k, l, len),
{
    lemma_span_below(i, j, len);
    lemma_span_below(k, l, len);
    assert(spans_before((i + 1) as nat, len) == spans_before(i as nat, len) + (len - i));
    assert(spans_before((k + 1) as nat, len) == spans_before(k as nat, len) + (len - k));
    if i < k {
        lemma_spans((i + 1) as nat, k as nat, len);
    } else if k < i {
        lemma_spans((k + 1) as nat, i as nat, len);
    }
}

/// Whether every rule joins two spans to one of at most the given width that starts before
/// `n`, where it has that width.
spec fn splits(rules: Seq<RuleModel>, width: int, n: int, len: nat) -> bool {
    forall|r: int| 0 <= r < rules.len() ==> #[trigger] splits_one(rules[r], width, n, len)
}

spec fn splits_one(rule: RuleModel, width: int, n: int, len: nat) -> bool {
    rule.children.len() == 2 && exists|i: int, j: int|
        {
            &&& 0 <= i
            &&& i + 2 <= j <= len
            &&& j - i < width || (j - i == width && i < n)
            &&& rule.result == #[trigger] span(i, j, len)
        }
}

proof fn lemma_split_rules(i: int, j: int, len: nat)
    requires
        0 <= i,
        i + 2 <= j <= len,
        spans_before(len, len) <= u32::MAX,
    ensures
        automaton::unique_transitions(split_rules(i, j, len, (j - i - 1) as nat)),
        splits(split_rules(i, j, len, (j - i - 1) as nat), j - i, i + 1, len),
{
    let rules = split_rules(i, j, len, (j - i - 1) as nat);
    assert forall|s: int| 0 <= s < rules.len() implies !#[trigger] automaton::repeats(rules, s) by {
        assert forall|t: int| 0 <= t < s implies !automaton::same_transition(
            #[trigger] rules[t],
            rules[s],
        ) by {
            lemma_span_differs(i, i + 1 + t, i, i + 1 + s, len);
            assert(rules[t].children[0] == span(i, i + 1 + t, len));
            assert(rules[s].children[0] == span(i, i + 1 + s, len));
        }
    }
    assert forall|r: int| 0 <= r < rules.len() implies #[trigger] splits_one(
        rules[r],
        j - i,
        i + 1,
        len,
    ) by {
        assert(rules[r].result == span(i, j, len));
    }
}

proof fn lemma_disjoint_splits(
    a: Seq<RuleModel>,
    b: Seq<RuleModel>,
    width: int,
    i: int,
    len: nat,
)
    requires
        2 <= width,
        0 <= i,
        i + width <= len,
        spans_before(len, len) <= u32::MAX,
        splits(a, width, i, len),
        automaton::unique_transitions(a),
        b == split_rules(i, i + width, len, (width - 1) as nat),
    ensures
        automaton::unique_transitions(a + b),
        splits(a + b, width, i + 1, len),
{
    lemma_split_rules(i, i + width, len);
    assert forall|x: int, y: int|
        0 <= x < a.len() && 0 <= y < b.len() implies !automaton::same_transition(
        #[trigger] a[x],
        #[trigger] b[y],
    ) by {
        assert(splits_one(a[x], width, i, len));
        let (k, l) = choose|k: int, l: int|
            {
                &&& 0 <= k
                &&& k + 2 <= l <= len
                &&& l - k < width || (l - k == width && k < i)
                &&& a[x].result == #[trigger] span(k, l, len)
            };
        lemma_span_differs(k, l, i, i + width, len);
        assert(b[y].result == span(i, i + width, len));
    }
    lemma_join(a, b);
    let c = a + b;
    assert forall|r: int| 0 <= r < c.len() implies #[trigger] splits_one(
        c[r],
        width,
        i + 1,
        len,
    ) by {
        if r < a.len() {
            assert(splits_one(a[r], width, i, len));
        } else {
            assert(splits_one(b[r - a.len()], width, i + 1, len));
        }
    }
}

proof fn lemma_width_rules(before: Seq<RuleModel>, width: int, len: nat, n: nat)
    requires
        2 <= width,
        n + width <= len + 1,
        spans_before(len, len) <= u32::MAX,
        splits(before, width, 0, len),
        automaton::unique_transitions(before),
    ensures
        automaton::unique_transitions(before + width_rules(width, len, n)),
        splits(before + width_rules(width, len, n), width, n as int, len),
    decreases n,
{
    if n == 0 {
        assert(before + width_rules(width, len, n) =~= before);
    } else {
        lemma_width_rules(before, width, len, (n - 1) as nat);
        let a = before + width_rules(width, len, (n - 1) as nat);
        let b = split_rules(n - 1, n - 1 + width, len, (width - 1) as nat);
        lemma_disjoint_splits(a, b, width, n - 1, len);
        assert(before + width_rules(width, len, n) =~= a + b);
    }
}

proof fn lemma_rules_up_to(width: nat, len: nat)
    requires
        width <= len,
        spans_before(len, len) <= u32::MAX,
    ensures
        automaton::unique_transitions(rules_up_to(width, len)),
        splits(rules_up_to(width, len), width as int + 1, 0, len),
    decreases width,
{
    if width > 1 {
        lemma_rules_up_to((width - 1) as nat, len);
        let n = (len - width + 1) as nat;
        lemma_width_rules(rules_up_to((width - 1) as nat, len), width as int, len, n);
        let rules = rules_up_to(width, len);
        assert forall|r: int| 0 <= r < rules.len() implies #[trigger] splits_one(
            rules[r],
            width as int + 1,
            0,
            len,
        ) by {
            assert(splits_one(rules[r], width as int, n as int, len));
        }
    }
}

proof fn lemma_spans_unique(len: nat, vocab: int)
    requires
        spans_before(len, len) <= u32::MAX,
    ensures
        automaton::unique_transitions(span_model(len, vocab).rules),
{
    let words = Seq::new(len, |i: int| word_rule(i, len, vocab));
    assert forall|i: int| 0 <= i < words.len() implies !#[trigger] automaton::repeats(words, i) by {
        assert forall|j: int| 0 <= j < i implies !automaton::same_transition(
            #[trigger] words[j],
            words[i],
        ) by {
            lemma_span_differs(j, j + 1, i, i + 1, len);
        }
    }
    lemma_rules_up_to(len, len);
    let rest = rules_up_to(len, len);
    assert forall|x: int, y: int|
        0 <= x < words.len() && 0 <= y < rest.len() implies !automaton::same_transition(
        #[trigger] words[x],
        #[trigger] rest[y],
    ) by {
        assert(splits_one(rest[y], len as int + 1, 0, len));
    }
    lemma_join(words, rest);
}

/// The first span of every start.
fn span_starts(len: usize) -> (r: Vec<usize>)
    requires
        spans_before(len as nat, len as nat) < StateId::STUCK,
    ensures
        r@.len() == len + 1,
        forall|i: int| 0 <= i <= len ==> #[trigger] r@[i] == spans_before(i as nat, len as nat),
{
    let mut r: Vec<usize> = Vec::new();
    r.push(0);
    let mut i: usize = 0;
    while i < len
        invariant
            i <= len,
            spans_before(len as nat, len as nat) < StateId::STUCK,
            r@.len() == i + 1,
            forall|j: int| 0 <= j <= i ==> #[trigger] r@[j] == spans_before(j as nat, len as nat),
        decreases len - i,
    {
        proof {
            lemma_spans((i + 1) as nat, len as nat, len as nat);
        }
        let next: usize = r[i] + (len - i);
        r.push(next);
        i += 1;
    }
    r
}

/// Builds the automaton of the decompositions of a sentence of `len` words that repeats
/// `vocab` words.
pub fn span_automaton(len: usize, vocab: usize) -> (r: Explicit)
    requires
        0 < len,
        0 < vocab <= u32::MAX - WORD_BASE,
        spans_before(len as nat, len as nat) < StateId::STUCK,
        span_model(len as nat, vocab as int).rules.len() <= u32::MAX,
    ensures
        r@ == span_model(len as nat, vocab as int),
{
    let ghost n = len as nat;
    let starts = span_starts(len);
    let mut b = fresh_states(starts[len]);
    proof {
        lemma_span_below(0, len as int, n);
    }
    b.add_accepting(StateId((starts[0] + len - 1) as u32));
    assert(b@.accepting =~= set![span(0, len as int, n)]);
    let ghost words = Seq::new(n, |i: int| word_rule(i, n, vocab as int));
    let mut i: usize = 0;
    assert(words.take(0) =~= Seq::empty());
    while i < len
        invariant
            i <= len,
            n == len,
            0 < vocab <= u32::MAX - WORD_BASE,
            spans_before(n, n) < StateId::STUCK,
            starts@.len() == len + 1,
            forall|j: int| 0 <= j <= len ==> #[trigger] starts@[j] == spans_before(j as nat, n),
            words == Seq::new(n, |i: int| word_rule(i, n, vocab as int)),
            b@.states == spans_before(n, n),
            b@.accepting == set![span(0, len as int, n)],
            b@.rules == words.take(i as int),
        decreases len - i,
    {
        let none: Vec<StateId> = Vec::new();
        proof {
            lemma_span_below(i as int, i + 1, n);
        }
        let ghost prior = b@.rules;
        b.add_rule(word_symbol(i % vocab), none, StateId(starts[i] as u32));
        i += 1;
        proof {
            assert(none@ =~= Seq::empty());
            assert(b@.rules =~= prior.push(words[i - 1]));
            assert(words.take(i as int) =~= words.take(i - 1).push(words[i - 1]));
        }
    }
    assert(words.take(i as int) =~= words);
    let mut width: usize = 1;
    assert(words + rules_up_to(1, n) =~= words);
    while width < len
        invariant
            1 <= width <= len,
            n == len,
            spans_before(n, n) < StateId::STUCK,
            starts@.len() == len + 1,
            forall|j: int| 0 <= j <= len ==> #[trigger] starts@[j] == spans_before(j as nat, n),
            b@.states == spans_before(n, n),
            b@.accepting == set![span(0, len as int, n)],
            b@.rules == words + rules_up_to(width as nat, n),
        decreases len - width,
    {
        width += 1;
        add_width_rules(&mut b, &starts, len, width);
        assert(b@.rules =~= words + rules_up_to(width as nat, n));
    }
    proof {
        lemma_spans_unique(n, vocab as int);
    }
    b.build()
}

/// Adds the rules that split the spans of one width.
fn add_width_rules(b: &mut ExplicitBuilder, starts: &Vec<usize>, len: usize, width: usize)
    requires
        2 <= width <= len,
        spans_before(len as nat, len as nat) < StateId::STUCK,
        starts@.len() == len + 1,
        forall|j: int|
            0 <= j <= len ==> #[trigger] starts@[j] == spans_before(j as nat, len as nat),
        old(b)@.states == spans_before(len as nat, len as nat),
    ensures
        final(b)@ == (Automaton {
            rules: old(b)@.rules + width_rules(
                width as int,
                len as nat,
                (len - width + 1) as nat,
            ),
            ..old(b)@
        }),
{
    let ghost n = len as nat;
    let ghost start = b@;
    let mut i: usize = 0;
    assert(start.rules + width_rules(width as int, n, 0) =~= start.rules);
    while i < len - width + 1
        invariant
            i <= len - width + 1,
            2 <= width <= len,
            n == len,
            spans_before(n, n) < StateId::STUCK,
            starts@.len() == len + 1,
            forall|j: int| 0 <= j <= len ==> #[trigger] starts@[j] == spans_before(j as nat, n),
            start.states == spans_before(n, n),
            b@ == (Automaton {
                rules: start.rules + width_rules(width as int, n, i as nat),
                ..start
            }),
        decreases len - i,
    {
        let ghost before = b@.rules;
        let j: usize = i + width;
        let mut s: usize = 0;
        assert(before + split_rules(i as int, j as int, n, 0) =~= before);
        while s < width - 1
            invariant
                s <= width - 1,
                i < len - width + 1,
                j == i + width,
                2 <= width <= len,
                n == len,
                spans_before(n, n) < StateId::STUCK,
                starts@.len() == len + 1,
                forall|j: int| 0 <= j <= len ==> #[trigger] starts@[j] == spans_before(j as nat, n),
                start.states == spans_before(n, n),
                b@ == (Automaton {
                    rules: before + split_rules(i as int, j as int, n, s as nat),
                    ..start
                }),
            decreases width - s,
        {
            let k: usize = i + 1 + s;
            proof {
                lemma_span_below(i as int, k as int, n);
                lemma_span_below(k as int, j as int, n);
                lemma_span_below(i as int, j as int, n);
            }
            let ghost prior = b@.rules;
            let left = StateId((starts[i] + (k - i - 1)) as u32);
            let right = StateId((starts[k] + (j - k - 1)) as u32);
            let whole = StateId((starts[i] + (j - i - 1)) as u32);
            let children: Vec<StateId> = vec![left, right];
            proof {
                assert(children@ =~= seq![
                    span(i as int, k as int, n),
                    span(k as int, j as int, n),
                ]);
            }
            b.add_rule(Symbol(CONCAT), children, whole);
            s += 1;
            proof {
                let row = split_rules(i as int, j as int, n, s as nat);
                assert(b@.rules =~= prior.push(row[s - 1]));
                assert(b@.rules =~= before + row);
            }
        }
        i += 1;
        assert(b@.rules =~= start.rules + width_rules(width as int, n, i as nat));
    }
}

} // verus!
