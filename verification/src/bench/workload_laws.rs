//! Which rules generated automata have.
use crate::automaton::RuleModel;
use crate::bench::workload;
use crate::ids::{StateId, Symbol};
use vstd::prelude::*;

verus! {

proof fn lemma_either(a: Seq<RuleModel>, b: Seq<RuleModel>, x: RuleModel)
    ensures
        (a + b).contains(x) <==> a.contains(x) || b.contains(x),
{
    let all = a + b;
    if all.contains(x) {
        let i = choose|i: int| 0 <= i < all.len() && all[i] == x;
        if i < a.len() {
            assert(a[i] == x);
        } else {
            assert(b[i - a.len()] == x);
        }
    }
    if a.contains(x) {
        let i = choose|i: int| 0 <= i < a.len() && a[i] == x;
        assert(all[i] == x);
    }
    if b.contains(x) {
        let i = choose|i: int| 0 <= i < b.len() && b[i] == x;
        assert(all[a.len() + i] == x);
    }
}

/// Whether a rule has weight one.
pub open spec fn is_unweighted(rule: RuleModel) -> bool {
    rule.weight.bits == 0x3ff0_0000_0000_0000
}

/// Whether a rule puts leaf `j` into state `q`.
pub open spec fn is_leaf_rule(rule: RuleModel, leaves: Seq<Symbol>, q: int, j: int) -> bool {
    &&& 0 <= j < leaves.len()
    &&& rule.symbol == leaves[j]
    &&& rule.children == Seq::<StateId>::empty()
    &&& rule.result == StateId(q as u32)
    &&& is_unweighted(rule)
}

/// Whether a rule joins two states by binary symbol `k`: the result depends on both states,
/// in their order, and on the shift of the symbol.
pub open spec fn is_binary_rule(
    rule: RuleModel,
    binaries: Seq<(Symbol, usize)>,
    states: int,
    k: int,
    left: int,
    right: int,
) -> bool {
    &&& 0 <= k < binaries.len()
    &&& rule.symbol == binaries[k].0
    &&& rule.children == seq![StateId(left as u32), StateId(right as u32)]
    &&& rule.result == StateId(((31 * left + 17 * right + binaries[k].1) % states) as u32)
    &&& is_unweighted(rule)
}

/// Whether some leaf rule below `n` is the rule.
pub open spec fn some_leaf(rule: RuleModel, leaves: Seq<Symbol>, n: int) -> bool {
    exists|q: int, j: int| 0 <= q < n && #[trigger] is_leaf_rule(rule, leaves, q, j)
}

/// Whether some binary rule is the rule, for the first `n` symbols.
pub open spec fn some_binary(
    rule: RuleModel,
    binaries: Seq<(Symbol, usize)>,
    states: int,
    n: int,
) -> bool {
    exists|k: int, left: int, right: int|
        0 <= k < n && 0 <= left < states && 0 <= right < states && #[trigger] is_binary_rule(
            rule,
            binaries,
            states,
            k,
            left,
            right,
        )
}

proof fn lemma_leaves(leaves: Seq<Symbol>, n: nat, rule: RuleModel)
    ensures
        workload::leaf_rules(leaves, n).contains(rule) <==> some_leaf(rule, leaves, n as int),
    decreases n,
{
    if n > 0 {
        let before = workload::leaf_rules(leaves, (n - 1) as nat);
        let block = workload::leaf_block(leaves, n - 1);
        lemma_leaves(leaves, (n - 1) as nat, rule);
        lemma_either(before, block, rule);
        if block.contains(rule) {
            let j = choose|j: int| 0 <= j < block.len() && block[j] == rule;
            assert(is_leaf_rule(rule, leaves, n - 1, j));
        }
        if some_leaf(rule, leaves, n as int) {
            let (q, j) = choose|q: int, j: int|
                0 <= q < n && #[trigger] is_leaf_rule(rule, leaves, q, j);
            if q < n - 1 {
                assert(some_leaf(rule, leaves, n - 1));
            } else {
                assert(block[j] == rule);
            }
        }
    }
}

/// Whether a rule joins two states by a symbol, the left state being below `n`.
pub open spec fn some_row(
    rule: RuleModel,
    f: Symbol,
    shift: usize,
    states: int,
    n: int,
) -> bool {
    exists|left: int, right: int|
        0 <= left < n && 0 <= right < states && #[trigger] is_binary_rule(
            rule,
            seq![(f, shift)],
            states,
            0,
            left,
            right,
        )
}

proof fn lemma_rows(f: Symbol, shift: usize, states: nat, n: nat, rule: RuleModel)
    ensures
        workload::binary_rules(f, shift, states, n).contains(rule) <==> some_row(
            rule,
            f,
            shift,
            states as int,
            n as int,
        ),
    decreases n,
{
    if n > 0 {
        let one = seq![(f, shift)];
        let before = workload::binary_rules(f, shift, states, (n - 1) as nat);
        let row = workload::binary_row(f, shift, n - 1, states, states);
        lemma_rows(f, shift, states, (n - 1) as nat, rule);
        lemma_either(before, row, rule);
        if row.contains(rule) {
            let right = choose|right: int| 0 <= right < row.len() && row[right] == rule;
            assert(is_binary_rule(rule, one, states as int, 0, n - 1, right));
        }
        if some_row(rule, f, shift, states as int, n as int) {
            let (left, right) = choose|left: int, right: int|
                0 <= left < n && 0 <= right < states && #[trigger] is_binary_rule(
                    rule,
                    one,
                    states as int,
                    0,
                    left,
                    right,
                );
            if left < n - 1 {
                assert(some_row(rule, f, shift, states as int, n - 1));
            } else {
                assert(row[right] == rule);
            }
        }
    }
}

proof fn lemma_binaries(
    binaries: Seq<(Symbol, usize)>,
    states: nat,
    n: nat,
    rule: RuleModel,
)
    requires
        n <= binaries.len(),
    ensures
        workload::all_binary_rules(binaries, states, n).contains(rule) <==> some_binary(
            rule,
            binaries,
            states as int,
            n as int,
        ),
    decreases n,
{
    if n > 0 {
        let (f, shift) = binaries[n - 1];
        let before = workload::all_binary_rules(binaries, states, (n - 1) as nat);
        let block = workload::binary_rules(f, shift, states, states);
        lemma_binaries(binaries, states, (n - 1) as nat, rule);
        lemma_rows(f, shift, states, states, rule);
        lemma_either(before, block, rule);
        let one = seq![(f, shift)];
        if block.contains(rule) {
            let (left, right) = choose|left: int, right: int|
                0 <= left < states && 0 <= right < states && #[trigger] is_binary_rule(
                    rule,
                    one,
                    states as int,
                    0,
                    left,
                    right,
                );
            assert(is_binary_rule(rule, binaries, states as int, n - 1, left, right));
        }
        if before.contains(rule) {
            let (k, left, right) = choose|k: int, left: int, right: int|
                0 <= k < n - 1 && 0 <= left < states && 0 <= right < states
                    && #[trigger] is_binary_rule(rule, binaries, states as int, k, left, right);
            assert(is_binary_rule(rule, binaries, states as int, k, left, right));
        }
        if some_binary(rule, binaries, states as int, n as int) {
            let (k, left, right) = choose|k: int, left: int, right: int|
                0 <= k < n && 0 <= left < states && 0 <= right < states
                    && #[trigger] is_binary_rule(rule, binaries, states as int, k, left, right);
            if k < n - 1 {
                assert(some_binary(rule, binaries, states as int, n - 1));
            } else {
                assert(is_binary_rule(rule, one, states as int, 0, left, right));
            }
        }
    }
}

/// A generated grammar has a rule for every leaf in every state and one for every binary
/// symbol over every two states, and no other; it accepts in its first state.
pub proof fn law_generated_grammars(
    states: nat,
    leaves: Seq<Symbol>,
    binaries: Seq<(Symbol, usize)>,
    rule: RuleModel,
)
    ensures
        ({
            let a = workload::grammar_model(states, leaves, binaries);
            &&& a.states == states
            &&& forall|q: StateId| #[trigger] a.accepting.contains(q) <==> q.0 == 0
            &&& a.rules.contains(rule) <==> some_leaf(rule, leaves, states as int) || some_binary(
                rule,
                binaries,
                states as int,
                binaries.len() as int,
            )
        }),
{
    lemma_leaves(leaves, states, rule);
    lemma_binaries(binaries, states, binaries.len(), rule);
    lemma_either(
        workload::leaf_rules(leaves, states),
        workload::all_binary_rules(binaries, states, binaries.len()),
        rule,
    );
}

/// Whether a rule is that of a word of a sentence that repeats its words.
pub open spec fn is_word_rule(rule: RuleModel, i: int, len: nat, vocab: int) -> bool {
    &&& 0 <= i < len
    &&& rule.symbol == Symbol((1 + i % vocab) as u32)
    &&& rule.children == Seq::<StateId>::empty()
    &&& rule.result == workload::span(i, i + 1, len)
    &&& is_unweighted(rule)
}

/// Whether a rule makes the span from `i` to `j` of those from `i` to `k` and from `k` to
/// `j`.
pub open spec fn is_split(rule: RuleModel, i: int, k: int, j: int, len: nat) -> bool {
    &&& 0 <= i < k < j <= len
    &&& rule.symbol == Symbol(0)
    &&& rule.children == seq![workload::span(i, k, len), workload::span(k, j, len)]
    &&& rule.result == workload::span(i, j, len)
    &&& is_unweighted(rule)
}

/// Whether a rule makes some span of at most the given width.
pub open spec fn some_split(rule: RuleModel, width: int, len: nat) -> bool {
    exists|i: int, k: int, j: int| #[trigger] is_split(rule, i, k, j, len) && j - i <= width
}

/// Whether a rule makes some span of exactly the given width that starts below `n`.
pub open spec fn some_wide_split(rule: RuleModel, width: int, len: nat, n: int) -> bool {
    exists|i: int, k: int, j: int| #[trigger]
        is_split(rule, i, k, j, len) && j - i == width && i < n
}

proof fn lemma_width(width: int, len: nat, n: nat, rule: RuleModel)
    requires
        1 < width <= len,
        n <= len - width + 1,
    ensures
        workload::width_rules(width, len, n).contains(rule) <==> some_wide_split(
            rule,
            width,
            len,
            n as int,
        ),
    decreases n,
{
    if n > 0 {
        let before = workload::width_rules(width, len, (n - 1) as nat);
        let i = n - 1;
        let block = workload::split_rules(i, i + width, len, (width - 1) as nat);
        lemma_width(width, len, (n - 1) as nat, rule);
        lemma_either(before, block, rule);
        if block.contains(rule) {
            let s = choose|s: int| 0 <= s < block.len() && block[s] == rule;
            assert(is_split(rule, i, i + 1 + s, i + width, len));
        }
        if before.contains(rule) {
            let (a, k, j) = choose|a: int, k: int, j: int| #[trigger]
                is_split(rule, a, k, j, len) && j - a == width && a < n - 1;
            assert(is_split(rule, a, k, j, len));
        }
        if some_wide_split(rule, width, len, n as int) {
            let (a, k, j) = choose|a: int, k: int, j: int| #[trigger]
                is_split(rule, a, k, j, len) && j - a == width && a < n;
            if a < n - 1 {
                assert(some_wide_split(rule, width, len, n - 1));
            } else {
                assert(block[k - a - 1] == rule);
            }
        }
    }
}

proof fn lemma_splits(width: nat, len: nat, rule: RuleModel)
    requires
        width <= len,
    ensures
        workload::rules_up_to(width, len).contains(rule) <==> some_split(rule, width as int, len),
    decreases width,
{
    if width > 1 {
        let before = workload::rules_up_to((width - 1) as nat, len);
        let n = (len - width + 1) as nat;
        let block = workload::width_rules(width as int, len, n);
        lemma_splits((width - 1) as nat, len, rule);
        lemma_width(width as int, len, n, rule);
        lemma_either(before, block, rule);
        if before.contains(rule) {
            let (i, k, j) = choose|i: int, k: int, j: int| #[trigger]
                is_split(rule, i, k, j, len) && j - i <= width - 1;
            assert(is_split(rule, i, k, j, len));
        }
        if block.contains(rule) {
            let (i, k, j) = choose|i: int, k: int, j: int| #[trigger]
                is_split(rule, i, k, j, len) && j - i == width && i < n;
            assert(is_split(rule, i, k, j, len));
        }
        if some_split(rule, width as int, len) {
            let (i, k, j) = choose|i: int, k: int, j: int| #[trigger]
                is_split(rule, i, k, j, len) && j - i <= width;
            if j - i < width {
                assert(some_split(rule, width - 1, len));
            } else {
                assert(some_wide_split(rule, width as int, len, n as int));
            }
        }
    }
}

/// The decompositions of a sentence have a rule for every word and one for every way to put
/// two neighbouring spans together, and no other; they accept the span of all words.
pub proof fn law_sentence_decompositions(len: nat, vocab: int, rule: RuleModel)
    requires
        vocab > 0,
    ensures
        ({
            let a = workload::span_model(len, vocab);
            &&& forall|q: StateId| #[trigger]
                a.accepting.contains(q) <==> q == workload::span(0, len as int, len)
            &&& a.rules.contains(rule) <==> (exists|i: int| #[trigger]
                is_word_rule(rule, i, len, vocab)) || some_split(rule, len as int, len)
        }),
{
    let words = Seq::new(len, |i: int| workload::word_rule(i, len, vocab));
    lemma_splits(len, len, rule);
    lemma_either(words, workload::rules_up_to(len, len), rule);
    if words.contains(rule) {
        let i = choose|i: int| 0 <= i < words.len() && words[i] == rule;
        assert(is_word_rule(rule, i, len, vocab));
    }
    if exists|i: int| #[trigger] is_word_rule(rule, i, len, vocab) {
        let i = choose|i: int| #[trigger] is_word_rule(rule, i, len, vocab);
        assert(words[i] == rule);
    }
}

/// Spans are numbered from zero, by start and then by end, without gaps.
pub proof fn law_spans_are_numbered(len: nat, i: nat, j: nat)
    requires
        i < j <= len,
        workload::spans_before(len, len) <= u32::MAX,
    ensures
        workload::span(0, 1, len).0 == 0,
        j < len ==> workload::span(i as int, j as int + 1, len).0 == workload::span(
            i as int,
            j as int,
            len,
        ).0 + 1,
        i + 1 < len ==> workload::span(i as int + 1, i as int + 2, len).0 == workload::span(
            i as int,
            len as int,
            len,
        ).0 + 1,
{
    assert(workload::spans_before(0, len) == 0);
    lemma_fits(i + 1, len);
    if i + 1 < len {
        lemma_fits(i + 2, len);
    }
}

proof fn lemma_fits(i: nat, len: nat)
    requires
        i <= len,
    ensures
        workload::spans_before(i, len) <= workload::spans_before(len, len),
    decreases len - i,
{
    if i < len {
        lemma_fits(i + 1, len);
    }
}

} // verus!
