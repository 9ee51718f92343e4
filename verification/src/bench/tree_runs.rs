//! Running an automaton on trees from a file.
use crate::apply;
use crate::apply::SymbolTree;
use crate::arena;
use crate::automaton;
use crate::automaton::RuleModel;
use crate::bench::tree_text;
use crate::bench::tree_text::{spell, TextFault, TextNode, TreeFault};
use crate::cartesian;
use crate::cartesian::{cartesian, duplicate_all};
use crate::explicit;
use crate::explicit::Explicit;
use crate::ids::{StateId, Symbol};
use crate::recognition;
use crate::signature;
use crate::signature::{NameList, Signature, SignatureError, SignatureFault};
use crate::state_set::StateSet;
use crate::text;
use crate::text::{copy_text, starts_with, trimmed};
use crate::traits;
use crate::traits::{BottomUpTa, DetBottomUpTa};
use vstd::prelude::*;
use vstd::utf8;

verus! {

/// A tree as a list of nodes, children first, with the root last.
#[derive(Debug)]
pub struct FlatTree {
    pub symbols: Vec<Symbol>,
    pub children: Vec<Vec<usize>>,
}

impl FlatTree {
    /// The nodes of the tree.
    pub open spec fn nodes(&self) -> Seq<(Symbol, Seq<nat>)> {
        Seq::new(
            self.symbols@.len(),
            |i: int| (self.symbols@[i], tree_text::numbers_of(self.children@[i]@)),
        )
    }

    /// Whether there is a root, and children come first.
    pub open spec fn well_formed(&self) -> bool {
        &&& self.symbols@.len() > 0
        &&& self.children@.len() == self.symbols@.len()
        &&& arena::children_first(self.nodes())
    }

    /// The tree itself.
    pub open spec fn tree(&self) -> SymbolTree {
        apply::tree_at(self.nodes(), (self.symbols@.len() - 1) as nat)
    }
}

/// The symbols for the labels of nodes, each with as many children as it has, and the
/// names after they are added.
pub open spec fn labelled(names: NameList, nodes: Seq<TextNode>) -> (
    NameList,
    Result<Seq<(Symbol, Seq<nat>)>, SignatureFault>,
)
    decreases nodes.len(),
{
    if nodes.len() == 0 {
        (names, Ok(Seq::empty()))
    } else {
        let (earlier, done) = labelled(names, nodes.drop_last());
        match done {
            Err(f) => (earlier, Err(f)),
            Ok(list) => match signature::interned(
                earlier,
                nodes.last().0,
                nodes.last().1.len() as usize,
            ) {
                Ok((symbol, after)) => (after, Ok(list.push((symbol, nodes.last().1)))),
                Err(f) => (earlier, Err(f)),
            },
        }
    }
}

/// Why a line has no tree.
#[derive(Debug)]
pub enum LineFault {
    Label(SignatureError),
    Text(TreeFault),
}

/// The model of a [`LineFault`].
pub enum LineFaultModel {
    Label(SignatureFault),
    Text(TextFault),
}

impl View for LineFault {
    type V = LineFaultModel;

    open spec fn view(&self) -> LineFaultModel {
        match self {
            LineFault::Label(e) => LineFaultModel::Label(e@),
            LineFault::Text(f) => LineFaultModel::Text(f@),
        }
    }
}

/// The tree of a line, and the names after its labels are added.
pub open spec fn line_tree(names: NameList, line: Seq<char>) -> (
    NameList,
    Result<Seq<(Symbol, Seq<nat>)>, LineFaultModel>,
) {
    let (nodes, fault) = tree_text::spelled(line);
    let (after, done) = labelled(names, nodes);
    match done {
        Err(f) => (after, Err(LineFaultModel::Label(f))),
        Ok(list) => match fault {
            Some(f) => (after, Err(LineFaultModel::Text(f))),
            None => (after, Ok(list)),
        },
    }
}

/// Reads the tree of a line. A label is looked up in the signature, or added to it, as
/// soon as its node is complete.
pub fn parse_tree(line: &str, names: &mut Signature) -> (r: Result<FlatTree, LineFault>)
    requires
        utf8::encode_utf8(line@).len() <= usize::MAX,
        old(names)@.len() + line@.len() < u32::MAX,
    ensures
        final(names)@ == line_tree(old(names)@, line@).0,
        final(names)@.len() <= old(names)@.len() + line@.len(),
        match r {
            Ok(t) => t.well_formed() && line_tree(old(names)@, line@).1 == Ok::<
                Seq<(Symbol, Seq<nat>)>,
                LineFaultModel,
            >(t.nodes()),
            Err(f) => line_tree(old(names)@, line@).1 == Err::<
                Seq<(Symbol, Seq<nat>)>,
                LineFaultModel,
            >(f@),
        },
{
    let spelled = spell(line);
    let ghost start = names@;
    let ghost all = tree_text::node_texts(spelled.nodes@);
    let mut symbols: Vec<Symbol> = Vec::new();
    let mut children: Vec<Vec<usize>> = Vec::new();
    let mut i: usize = 0;
    assert(all.take(0) =~= Seq::empty());
    let ghost mut done: Seq<(Symbol, Seq<nat>)> = Seq::empty();
    while i < spelled.nodes.len()
        invariant
            i <= spelled.nodes@.len(),
            all == tree_text::node_texts(spelled.nodes@),
            start == old(names)@,
            all == tree_text::spelled(line@).0,
            spelled.nodes@.len() <= line@.len(),
            start.len() + line@.len() < u32::MAX,
            names@.len() <= start.len() + i,
            labelled(start, all.take(i as int)) == (
                names@,
                Ok::<Seq<(Symbol, Seq<nat>)>, SignatureFault>(done),
            ),
            symbols@.len() == i,
            children@.len() == i,
            done.len() == i,
            forall|j: int|
                0 <= j < i ==> #[trigger] done[j] == (
                    symbols@[j],
                    tree_text::numbers_of(children@[j]@),
                ),
            forall|j: int| 0 <= j < i ==> (#[trigger] done[j]).1 == all[j].1,
        decreases spelled.nodes@.len() - i,
    {
        let node = &spelled.nodes[i];
        let ghost before = names@;
        let arity: usize = node.children.len();
        proof {
            assert(all.take(i + 1).drop_last() =~= all.take(i as int));
            assert(all.take(i + 1).last() == all[i as int]);
            assert(all[i as int].1.len() == arity);
        }
        let symbol = match names.intern(copy_text(&node.label), arity) {
            Ok(symbol) => symbol,
            Err(e) => {
                proof {
                    lemma_labelled_fault(start, all, i + 1);
                }
                return Err(LineFault::Label(e));
            },
        };
        let ghost earlier = children@;
        let list = copy_numbers(&node.children);
        symbols.push(symbol);
        children.push(list);
        proof {
            done = done.push((symbol, all[i as int].1));
            assert(tree_text::numbers_of(list@) =~= all[i as int].1);
        }
        i += 1;
    }
    assert(all.take(i as int) =~= all);
    match spelled.fault {
        Some(f) => Err(LineFault::Text(f)),
        None => {
            let t = FlatTree { symbols, children };
            proof {
                assert(t.nodes() =~= done);
                assert(arena::children_first(t.nodes())) by {
                    assert forall|a: int, c: int|
                        0 <= a < t.nodes().len() && 0 <= c < t.nodes()[a].1.len() implies
                        #[trigger] t.nodes()[a].1[c] < a by {
                        assert(t.nodes()[a] == done[a]);
                        assert(done[a].1 == all[a].1);
                        assert(all[a].1[c] < a);
                    }
                }
            }
            Ok(t)
        },
    }
}

/// An earlier fault stays.
proof fn lemma_labelled_fault(names: NameList, nodes: Seq<TextNode>, n: int)
    requires
        0 <= n <= nodes.len(),
        labelled(names, nodes.take(n)).1 is Err,
    ensures
        labelled(names, nodes) == labelled(names, nodes.take(n)),
    decreases nodes.len() - n,
{
    if n < nodes.len() {
        assert(nodes.take(n + 1).drop_last() =~= nodes.take(n));
        lemma_labelled_fault(names, nodes, n + 1);
    } else {
        assert(nodes.take(n) =~= nodes);
    }
}

/// A copy of numbers.
fn copy_numbers(list: &Vec<usize>) -> (r: Vec<usize>)
    ensures
        r@ == list@,
{
    let mut r: Vec<usize> = Vec::new();
    let mut i: usize = 0;
    while i < list.len()
        invariant
            i <= list@.len(),
            r@ == list@.take(i as int),
        decreases list@.len() - i,
    {
        let n: usize = list[i];
        r.push(n);
        i += 1;
        assert(r@ =~= list@.take(i as int));
    }
    assert(list@.take(i as int) =~= list@);
    r
}

/// Whether a trimmed line has no tree: it is empty or a comment.
pub open spec fn is_skipped(line: Seq<char>) -> bool {
    line.len() == 0 || text::stands_at(line, "#"@, 0) || text::stands_at(line, "//"@, 0)
}

/// The trees of lines, and the names after all labels are added; or the number of the
/// first line that has none, and why.
pub open spec fn line_trees(names: NameList, lines: Seq<Seq<char>>) -> (
    NameList,
    Result<Seq<Seq<(Symbol, Seq<nat>)>>, (int, LineFaultModel)>,
)
    decreases lines.len(),
{
    if lines.len() == 0 {
        (names, Ok(Seq::empty()))
    } else {
        let (earlier, done) = line_trees(names, lines.drop_last());
        let line = text::trim(lines.last());
        match done {
            Err(f) => (earlier, Err(f)),
            Ok(list) => if is_skipped(line) {
                (earlier, Ok(list))
            } else {
                let (after, found) = line_tree(earlier, line);
                match found {
                    Ok(nodes) => (after, Ok(list.push(nodes))),
                    Err(f) => (after, Err((lines.len() as int, f))),
                }
            },
        }
    }
}

/// The nodes of trees.
pub open spec fn all_nodes(trees: Seq<FlatTree>) -> Seq<Seq<(Symbol, Seq<nat>)>> {
    Seq::new(trees.len(), |i: int| trees[i].nodes())
}

/// The number of characters of lines.
pub open spec fn total_length(lines: Seq<Seq<char>>) -> nat
    decreases lines.len(),
{
    if lines.len() == 0 {
        0
    } else {
        total_length(lines.drop_last()) + lines.last().len()
    }
}

proof fn lemma_lines_fault(names: NameList, lines: Seq<Seq<char>>, n: int)
    requires
        0 <= n <= lines.len(),
        line_trees(names, lines.take(n)).1 is Err,
    ensures
        line_trees(names, lines) == line_trees(names, lines.take(n)),
    decreases lines.len() - n,
{
    if n < lines.len() {
        assert(lines.take(n + 1).drop_last() =~= lines.take(n));
        lemma_lines_fault(names, lines, n + 1);
    } else {
        assert(lines.take(n) =~= lines);
    }
}

proof fn lemma_total_prefix(lines: Seq<Seq<char>>, n: int)
    requires
        0 <= n <= lines.len(),
    ensures
        total_length(lines.take(n)) <= total_length(lines),
    decreases lines.len(),
{
    if n < lines.len() {
        lemma_total_prefix(lines.drop_last(), n);
        assert(lines.drop_last().take(n) =~= lines.take(n));
    } else {
        assert(lines.take(n) =~= lines);
    }
}

proof fn lemma_trim_length(s: Seq<char>)
    ensures
        text::trim(s).len() <= s.len(),
{
    lemma_start_length(s);
    lemma_end_length(text::trim_start(s));
}

proof fn lemma_start_length(s: Seq<char>)
    ensures
        text::trim_start(s).len() <= s.len(),
    decreases s.len(),
{
    if s.len() > 0 && text::white_space(s[0]) {
        lemma_start_length(s.skip(1));
    }
}

proof fn lemma_end_length(s: Seq<char>)
    ensures
        text::trim_end(s).len() <= s.len(),
    decreases s.len(),
{
    if s.len() > 0 && text::white_space(s.last()) {
        lemma_end_length(s.drop_last());
    }
}

/// Reads the trees of lines; empty lines and comments have none.
pub fn parse_tree_lines(lines: &Vec<String>, names: &mut Signature) -> (r: Result<
    Vec<FlatTree>,
    (usize, LineFault),
>)
    requires
        4 * total_length(text::texts(lines@)) <= usize::MAX,
        old(names)@.len() + total_length(text::texts(lines@)) < u32::MAX,
    ensures
        final(names)@ == line_trees(old(names)@, text::texts(lines@)).0,
        match r {
            Ok(trees) => (forall|i: int|
                0 <= i < trees@.len() ==> (#[trigger] trees@[i]).well_formed()) && line_trees(
                old(names)@,
                text::texts(lines@),
            ).1 == Ok::<Seq<Seq<(Symbol, Seq<nat>)>>, (int, LineFaultModel)>(all_nodes(trees@)),
            Err((number, fault)) => line_trees(old(names)@, text::texts(lines@)).1 == Err::<
                Seq<Seq<(Symbol, Seq<nat>)>>,
                (int, LineFaultModel),
            >((number as int, fault@)),
        },
{
    let ghost all = text::texts(lines@);
    let ghost start = names@;
    let mut trees: Vec<FlatTree> = Vec::new();
    let mut i: usize = 0;
    assert(all.take(0) =~= Seq::empty());
    assert(all_nodes(trees@) =~= Seq::empty());
    while i < lines.len()
        invariant
            i <= lines@.len(),
            all == text::texts(lines@),
            start == old(names)@,
            4 * total_length(all) <= usize::MAX,
            start.len() + total_length(all) < u32::MAX,
            names@.len() <= start.len() + total_length(all.take(i as int)),
            line_trees(start, all.take(i as int)) == (
                names@,
                Ok::<Seq<Seq<(Symbol, Seq<nat>)>>, (int, LineFaultModel)>(all_nodes(trees@)),
            ),
            forall|j: int| 0 <= j < trees@.len() ==> (#[trigger] trees@[j]).well_formed(),
        decreases lines@.len() - i,
    {
        let line = trimmed(lines[i].as_str());
        let ghost before = trees@;
        proof {
            assert(all.take(i + 1).drop_last() =~= all.take(i as int));
            assert(all.take(i + 1).last() == lines@[i as int]@);
            lemma_total_prefix(all, i + 1);
            lemma_trim_length(lines@[i as int]@);
            text::lemma_encoded_length(line@);
        }
        let empty = text::chars_of(line.as_str()).len() == 0;
        if !(empty || starts_with(line.as_str(), "#") || starts_with(line.as_str(), "//")) {
            match parse_tree(line.as_str(), names) {
                Ok(t) => {
                    trees.push(t);
                    proof {
                        assert(all_nodes(trees@) =~= all_nodes(before).push(t.nodes()));
                    }
                },
                Err(fault) => {
                    proof {
                        lemma_lines_fault(start, all, i + 1);
                    }
                    return Err((i + 1, fault));
                },
            }
        }
        i += 1;
    }
    assert(all.take(i as int) =~= all);
    Ok(trees)
}

/// Whether no two rules have the same symbol and children.
pub open spec fn deterministic(rules: Seq<RuleModel>) -> bool {
    forall|i: int, j: int|
        0 <= i < j < rules.len() ==> !(#[trigger] rules[i].symbol == #[trigger] rules[j].symbol
            && rules[i].children == rules[j].children)
}

/// Checks that no two rules have the same symbol and children.
pub fn is_deterministic(automaton: &Explicit) -> (r: bool)
    ensures
        r == deterministic(automaton@.rules),
{
    let ghost rules = automaton@.rules;
    let n: usize = automaton.num_rules();
    let mut j: usize = 0;
    while j < n
        invariant
            j <= n,
            n == rules.len(),
            rules == automaton@.rules,
            forall|a: int, b: int|
                0 <= a < b < j ==> !(#[trigger] rules[a].symbol == #[trigger] rules[b].symbol
                    && rules[a].children == rules[b].children),
        decreases n - j,
    {
        let later = automaton.rule(j);
        let mut i: usize = 0;
        while i < j
            invariant
                i <= j < n,
                n == rules.len(),
                rules == automaton@.rules,
                later@ == rules[j as int],
                forall|a: int|
                    0 <= a < i ==> !(#[trigger] rules[a].symbol == rules[j as int].symbol
                        && rules[a].children == rules[j as int].children),
            decreases j - i,
        {
            let earlier = automaton.rule(i);
            if earlier.symbol == later.symbol && same_states(earlier.children, later.children) {
                assert(rules[i as int].symbol == rules[j as int].symbol);
                return false;
            }
            i += 1;
        }
        j += 1;
    }
    true
}

/// Whether two lists hold the same states.
fn same_states(x: &[StateId], y: &[StateId]) -> (r: bool)
    ensures
        r == (x@ == y@),
{
    if x.len() != y.len() {
        return false;
    }
    let mut i: usize = 0;
    while i < x.len()
        invariant
            i <= x@.len(),
            x@.len() == y@.len(),
            forall|j: int| 0 <= j < i ==> x@[j] == y@[j],
        decreases x@.len() - i,
    {
        if x[i] != y[i] {
            return false;
        }
        i += 1;
    }
    assert(x@ =~= y@);
    true
}

/// What a run on trees counts.
#[derive(Clone, Copy, PartialEq, Eq, Structural, Debug)]
pub struct RunSummary {
    /// Trees that are recognized.
    pub accepted: usize,
    /// States of roots, over all trees.
    pub root_states: usize,
}

/// The states that the root of a tree may get.
pub open spec fn root_states_of(a: &Explicit, t: SymbolTree) -> Set<StateId> {
    Set::new(|q: StateId| recognition::reaches(a, t, q))
}

/// How many of the trees are recognized.
pub open spec fn accepted_total(a: &Explicit, trees: Seq<FlatTree>) -> nat
    decreases trees.len(),
{
    if trees.len() == 0 {
        0
    } else {
        accepted_total(a, trees.drop_last()) + if recognition::recognizes(
            a,
            trees.last().tree(),
        ) {
            1nat
        } else {
            0nat
        }
    }
}

/// How many states the roots of the trees may get, over all trees.
pub open spec fn root_states_total(a: &Explicit, trees: Seq<FlatTree>) -> nat
    decreases trees.len(),
{
    if trees.len() == 0 {
        0
    } else {
        root_states_total(a, trees.drop_last()) + root_states_of(a, trees.last().tree()).len()
    }
}

/// Whether `list` holds the states that a tree may get, once each.
pub open spec fn lists_states(a: &Explicit, t: SymbolTree, list: Seq<StateId>) -> bool {
    &&& list.no_duplicates()
    &&& forall|q: StateId| #[trigger] list.contains(q) <==> recognition::reaches(a, t, q)
}

/// The states of a node come from the states of its children.
proof fn lemma_reached_from(a: &Explicit, t: SymbolTree, states: Seq<StateId>, q: StateId)
    requires
        recognition::children_reach(a, t, states),
        a.steps_to(t.symbol, states, q),
    ensures
        recognition::reaches(a, t, q),
{
}

/// The states of one node, from those of its children.
fn node_states(
    automaton: &Explicit,
    symbol: Symbol,
    pools: &Vec<Vec<StateId>>,
    Ghost(t): Ghost<SymbolTree>,
) -> (r: Vec<StateId>)
    requires
        t.symbol == symbol,
        t.children.len() == pools@.len(),
        forall|i: int|
            0 <= i < pools@.len() ==> lists_states(
                automaton,
                t.children[i],
                (#[trigger] pools@[i])@,
            ),
    ensures
        lists_states(automaton, t, r@),
{
    let tuples = cartesian(pools);
    let ghost lists = cartesian::contents(pools@);
    let mut found: StateSet<StateId> = StateSet::new();
    let mut k: usize = 0;
    while k < tuples.len()
        invariant
            k <= tuples@.len(),
            found.wf(),
            cartesian::contents(tuples@) == cartesian::tuples(lists),
            forall|q: StateId|
                found.list().contains(q) ==> exists|j: int|
                    0 <= j < k && #[trigger] automaton.steps_to(symbol, tuples@[j]@, q),
            forall|j: int, q: StateId|
                0 <= j < k && #[trigger] automaton.steps_to(symbol, tuples@[j]@, q)
                    ==> found.list().contains(q),
        decreases tuples@.len() - k,
    {
        let states = automaton.step(symbol, tuples[k].as_slice());
        let ghost before = found.list();
        let ghost here = states@;
        found.insert_all(states);
        proof {
            assert forall|q: StateId| found.list().contains(q) implies exists|j: int|
                0 <= j < k + 1 && #[trigger] automaton.steps_to(symbol, tuples@[j]@, q) by {
                if before.contains(q) {
                    let j = choose|j: int|
                        0 <= j < k && #[trigger] automaton.steps_to(symbol, tuples@[j]@, q);
                    assert(automaton.steps_to(symbol, tuples@[j]@, q));
                } else {
                    assert(here.contains(q));
                    assert(automaton.steps_to(symbol, tuples@[k as int]@, q));
                }
            }
            assert forall|j: int, q: StateId|
                0 <= j < k + 1 && #[trigger] automaton.steps_to(
                    symbol,
                    tuples@[j]@,
                    q,
                ) implies found.list().contains(q) by {
                if j < k {
                    assert(before.contains(q));
                } else {
                    assert(here.contains(q));
                }
            }
        }
        k += 1;
    }
    proof {
        assert forall|q: StateId| #[trigger]
            found.list().contains(q) <==> recognition::reaches(automaton, t, q) by {
            if found.list().contains(q) {
                let j = choose|j: int|
                    0 <= j < k && #[trigger] automaton.steps_to(symbol, tuples@[j]@, q);
                let tuple = tuples@[j]@;
                assert(cartesian::contents(tuples@)[j] == tuple);
                assert(cartesian::tuples(lists).contains(tuple));
                cartesian::lemma_tuples(lists, tuple);
                assert forall|i: int| 0 <= i < t.children.len() implies recognition::reaches(
                    automaton,
                    #[trigger] t.children[i],
                    tuple[i],
                ) by {
                    assert(lists[i].contains(tuple[i]));
                    assert(lists[i] == pools@[i]@);
                }
                lemma_reached_from(automaton, t, tuple, q);
            }
            if recognition::reaches(automaton, t, q) {
                let tuple = recognition::lemma_reaches(automaton, t, q);
                assert forall|i: int| 0 <= i < tuple.len() implies lists[i].contains(
                    #[trigger] tuple[i],
                ) by {
                    assert(recognition::reaches(automaton, t.children[i], tuple[i]));
                    assert(pools@[i]@.contains(tuple[i]));
                    assert(lists[i] == pools@[i]@);
                }
                cartesian::lemma_tuples(lists, tuple);
                let all = cartesian::tuples(lists);
                let j = choose|j: int| 0 <= j < all.len() && all[j] == tuple;
                assert(cartesian::contents(tuples@)[j] == tuples@[j]@);
                assert(automaton.steps_to(symbol, tuples@[j]@, q));
            }
        }
    }
    let n: usize = found.len();
    found.into_vec()
}

/// The states that the root of a tree may get.
fn tree_states(automaton: &Explicit, tree: &FlatTree) -> (r: Vec<StateId>)
    requires
        tree.well_formed(),
    ensures
        lists_states(automaton, tree.tree(), r@),
{
    let ghost nodes = tree.nodes();
    let mut states: Vec<Vec<StateId>> = Vec::new();
    let mut i: usize = 0;
    while i < tree.symbols.len()
        invariant
            i <= tree.symbols@.len(),
            tree.well_formed(),
            nodes == tree.nodes(),
            states@.len() == i,
            forall|j: int|
                0 <= j < i ==> lists_states(
                    automaton,
                    apply::tree_at(nodes, j as nat),
                    (#[trigger] states@[j])@,
                ),
        decreases tree.symbols@.len() - i,
    {
        let children = &tree.children[i];
        let ghost t = apply::tree_at(nodes, i as nat);
        proof {
            apply::lemma_tree_children(nodes, i as nat);
            assert forall|d: int| 0 <= d < children@.len() implies (#[trigger] children@[d])
                < i by {
                assert(nodes[i as int].1[d] == children@[d]);
            }
        }
        let mut pools: Vec<Vec<StateId>> = Vec::new();
        let mut c: usize = 0;
        while c < children.len()
            invariant
                c <= children@.len(),
                i < tree.symbols@.len(),
                tree.well_formed(),
                nodes == tree.nodes(),
                *children == tree.children@[i as int],
                states@.len() == i,
                forall|j: int|
                    0 <= j < i ==> lists_states(
                        automaton,
                        apply::tree_at(nodes, j as nat),
                        (#[trigger] states@[j])@,
                    ),
                pools@.len() == c,
                forall|d: int|
                    0 <= d < c ==> (#[trigger] pools@[d])@ == states@[children@[d] as int]@,
                forall|d: int| 0 <= d < children@.len() ==> (#[trigger] children@[d]) < i,
            decreases children@.len() - c,
        {
            let child: usize = children[c];
            pools.push(duplicate_all(states[child].as_slice()));
            c += 1;
        }
        proof {
            assert forall|d: int| 0 <= d < pools@.len() implies lists_states(
                automaton,
                t.children[d],
                (#[trigger] pools@[d])@,
            ) by {
                let child = children@[d];
                assert(nodes[i as int].1[d] == child);
                assert(t.children[d] == apply::tree_at(nodes, child as nat));
                assert(lists_states(
                    automaton,
                    apply::tree_at(nodes, child as nat),
                    states@[child as int]@,
                ));
            }
        }
        let found = node_states(automaton, tree.symbols[i], &pools, Ghost(t));
        states.push(found);
        i += 1;
    }
    proof {
        assert(lists_states(
            automaton,
            apply::tree_at(nodes, (i - 1) as nat),
            states@[i - 1]@,
        ));
    }
    match states.pop() {
        Some(list) => list,
        None => Vec::new(),
    }
}

/// The listed states give the totals of a tree.
proof fn lemma_listed_total(a: &Explicit, t: SymbolTree, list: Seq<StateId>)
    requires
        lists_states(a, t, list),
    ensures
        root_states_of(a, t).len() == list.len(),
        recognition::recognizes(a, t) <==> exists|k: int|
            0 <= k < list.len() && a.accepts(#[trigger] list[k]),
{
    list.unique_seq_to_set();
    assert(list.to_set() =~= root_states_of(a, t));
    if recognition::recognizes(a, t) {
        let q = choose|q: StateId| #[trigger] recognition::reaches(a, t, q) && a.accepts(q);
        assert(list.contains(q));
        let k = choose|k: int| 0 <= k < list.len() && list[k] == q;
        assert(a.accepts(list[k]));
    }
    if exists|k: int| 0 <= k < list.len() && a.accepts(#[trigger] list[k]) {
        let k = choose|k: int| 0 <= k < list.len() && a.accepts(#[trigger] list[k]);
        assert(list.contains(list[k]));
        assert(recognition::reaches(a, t, list[k]));
    }
}

/// Whether a state of the list accepts.
fn any_accepts(automaton: &Explicit, list: &Vec<StateId>) -> (r: bool)
    ensures
        r == exists|k: int| 0 <= k < list@.len() && automaton.accepts(#[trigger] list@[k]),
{
    let mut k: usize = 0;
    while k < list.len()
        invariant
            k <= list@.len(),
            forall|j: int| 0 <= j < k ==> !automaton.accepts(#[trigger] list@[j]),
        decreases list@.len() - k,
    {
        if automaton.is_accepting(&list[k]) {
            return true;
        }
        k += 1;
    }
    false
}

/// Runs an automaton on trees with sets of states; `None` where the number of root
/// states gets too large.
pub fn run_all_nondet(automaton: &Explicit, trees: &Vec<FlatTree>) -> (r: Option<RunSummary>)
    requires
        forall|i: int| 0 <= i < trees@.len() ==> (#[trigger] trees@[i]).well_formed(),
    ensures
        match r {
            Some(s) => s.accepted == accepted_total(automaton, trees@) && s.root_states
                == root_states_total(automaton, trees@),
            None => root_states_total(automaton, trees@) > usize::MAX,
        },
{
    let mut accepted: usize = 0;
    let mut root_states: usize = 0;
    let mut i: usize = 0;
    assert(trees@.take(0) =~= Seq::empty());
    while i < trees.len()
        invariant
            i <= trees@.len(),
            forall|j: int| 0 <= j < trees@.len() ==> (#[trigger] trees@[j]).well_formed(),
            accepted <= i,
            accepted == accepted_total(automaton, trees@.take(i as int)),
            root_states == root_states_total(automaton, trees@.take(i as int)),
        decreases trees@.len() - i,
    {
        let list = tree_states(automaton, &trees[i]);
        proof {
            assert(trees@.take(i + 1).drop_last() =~= trees@.take(i as int));
            assert(trees@.take(i + 1).last() == trees@[i as int]);
            lemma_listed_total(automaton, trees@[i as int].tree(), list@);
            lemma_root_total_prefix(automaton, trees@, i + 1);
        }
        if any_accepts(automaton, &list) {
            accepted += 1;
        }
        if root_states > usize::MAX - list.len() {
            return None;
        }
        root_states += list.len();
        i += 1;
    }
    assert(trees@.take(i as int) =~= trees@);
    Some(RunSummary { accepted, root_states })
}

proof fn lemma_root_total_prefix(a: &Explicit, trees: Seq<FlatTree>, n: int)
    requires
        0 <= n <= trees.len(),
    ensures
        root_states_total(a, trees.take(n)) <= root_states_total(a, trees),
    decreases trees.len(),
{
    if n < trees.len() {
        lemma_root_total_prefix(a, trees.drop_last(), n);
        assert(trees.drop_last().take(n) =~= trees.take(n));
    } else {
        assert(trees.take(n) =~= trees);
    }
}

/// A node of a deterministic automaton gets at most one state from given children.
proof fn lemma_one_step(
    a: &Explicit,
    f: Symbol,
    states: Seq<StateId>,
    q: StateId,
    r: StateId,
)
    requires
        deterministic(a@.rules),
        a.steps_to(f, states, q),
        a.steps_to(f, states, r),
    ensures
        q == r,
{
    let rules = a@.rules;
    let i = choose|i: int|
        0 <= i < rules.len() && automaton::applies(#[trigger] rules[i], f, states)
            && rules[i].result == q;
    let j = choose|j: int|
        0 <= j < rules.len() && automaton::applies(#[trigger] rules[j], f, states)
            && rules[j].result == r;
    if i < j {
        assert(rules[i].symbol == rules[j].symbol);
    } else if j < i {
        assert(rules[j].symbol == rules[i].symbol);
    }
}

/// Every tree gets at most one state from a deterministic automaton.
pub proof fn law_deterministic_states_are_unique(
    a: &Explicit,
    t: SymbolTree,
    q: StateId,
    r: StateId,
)
    requires
        deterministic(a@.rules),
        recognition::reaches(a, t, q),
        recognition::reaches(a, t, r),
    ensures
        q == r,
    decreases t,
{
    let x = recognition::lemma_reaches(a, t, q);
    let y = recognition::lemma_reaches(a, t, r);
    assert forall|i: int| 0 <= i < x.len() implies x[i] == y[i] by {
        assert(recognition::reaches(a, t.children[i], x[i]));
        assert(recognition::reaches(a, t.children[i], y[i]));
        law_deterministic_states_are_unique(a, t.children[i], x[i], y[i]);
    }
    assert(x =~= y);
    lemma_one_step(a, t.symbol, x, q, r);
}

/// Whether `found` is the state of a tree, if it gets one.
pub open spec fn is_state_of(a: &Explicit, t: SymbolTree, found: Option<StateId>) -> bool {
    match found {
        Some(q) => recognition::reaches(a, t, q),
        None => forall|q: StateId| !#[trigger] recognition::reaches(a, t, q),
    }
}

/// The state of one node, from the states of its children.
fn node_state(
    automaton: &Explicit,
    symbol: Symbol,
    children: &Vec<usize>,
    states: &Vec<Option<StateId>>,
    Ghost(t): Ghost<SymbolTree>,
) -> (r: Option<StateId>)
    requires
        deterministic(automaton@.rules),
        t.symbol == symbol,
        t.children.len() == children@.len(),
        forall|c: int|
            0 <= c < children@.len() ==> (#[trigger] children@[c]) < states@.len() && is_state_of(
                automaton,
                t.children[c],
                states@[children@[c] as int],
            ),
    ensures
        is_state_of(automaton, t, r),
{
    let mut tuple: Vec<StateId> = Vec::new();
    let mut c: usize = 0;
    while c < children.len()
        invariant
            c <= children@.len(),
            t.children.len() == children@.len(),
            forall|d: int|
                0 <= d < children@.len() ==> (#[trigger] children@[d]) < states@.len()
                    && is_state_of(automaton, t.children[d], states@[children@[d] as int]),
            tuple@.len() == c,
            forall|d: int|
                0 <= d < c ==> recognition::reaches(
                    automaton,
                    t.children[d],
                    #[trigger] tuple@[d],
                ),
        decreases children@.len() - c,
    {
        let child: usize = children[c];
        match states[child] {
            Some(q) => {
                tuple.push(q);
            },
            None => {
                proof {
                    assert forall|q: StateId| !#[trigger] recognition::reaches(
                        automaton,
                        t,
                        q,
                    ) by {
                        if recognition::reaches(automaton, t, q) {
                            let x = recognition::lemma_reaches(automaton, t, q);
                            assert(recognition::reaches(
                                automaton,
                                t.children[c as int],
                                x[c as int],
                            ));
                            assert(children@[c as int] == child);
                        }
                    }
                }
                return None;
            },
        }
        c += 1;
    }
    let found = automaton.step_det(symbol, tuple.as_slice());
    proof {
        assert(recognition::children_reach(automaton, t, tuple@)) by {
            assert forall|i: int| 0 <= i < t.children.len() implies recognition::reaches(
                automaton,
                #[trigger] t.children[i],
                tuple@[i],
            ) by {
                let q = tuple@[i];
            }
        }
        match found {
            Some(q) => {
                automaton.det_sound(symbol, tuple@);
                assert(automaton.steps_to(symbol, tuple@, q));
                lemma_reached_from(automaton, t, tuple@, q);
            },
            None => {
                assert forall|q: StateId| !#[trigger] recognition::reaches(automaton, t, q) by {
                    if recognition::reaches(automaton, t, q) {
                        let x = recognition::lemma_reaches(automaton, t, q);
                        assert forall|i: int| 0 <= i < x.len() implies x[i] == tuple@[i] by {
                            assert(recognition::reaches(automaton, t.children[i], x[i]));
                            law_deterministic_states_are_unique(
                                automaton,
                                t.children[i],
                                x[i],
                                tuple@[i],
                            );
                        }
                        assert(x =~= tuple@);
                        assert forall|r: StateId| #[trigger]
                            automaton.steps_to(symbol, tuple@, r) implies r == q by {
                            lemma_one_step(automaton, symbol, tuple@, r, q);
                        }
                        assert(traits::sole_step(automaton, symbol, tuple@, q));
                        explicit::law_step_det_agrees_with_step(automaton, symbol, tuple@, q);
                    }
                }
            },
        }
    }
    found
}

/// The state of the root of a tree.
fn tree_state(automaton: &Explicit, tree: &FlatTree) -> (r: Option<StateId>)
    requires
        deterministic(automaton@.rules),
        tree.well_formed(),
    ensures
        is_state_of(automaton, tree.tree(), r),
{
    let ghost nodes = tree.nodes();
    let mut states: Vec<Option<StateId>> = Vec::new();
    let mut i: usize = 0;
    while i < tree.symbols.len()
        invariant
            i <= tree.symbols@.len(),
            deterministic(automaton@.rules),
            tree.well_formed(),
            nodes == tree.nodes(),
            states@.len() == i,
            forall|j: int|
                0 <= j < i ==> is_state_of(
                    automaton,
                    apply::tree_at(nodes, j as nat),
                    #[trigger] states@[j],
                ),
        decreases tree.symbols@.len() - i,
    {
        let children = &tree.children[i];
        let ghost t = apply::tree_at(nodes, i as nat);
        proof {
            apply::lemma_tree_children(nodes, i as nat);
            assert forall|c: int| 0 <= c < children@.len() implies (#[trigger] children@[c])
                < states@.len() && is_state_of(
                automaton,
                t.children[c],
                states@[children@[c] as int],
            ) by {
                let child = children@[c];
                assert(nodes[i as int].1[c] == child);
                assert(t.children[c] == apply::tree_at(nodes, child as nat));
                assert(is_state_of(
                    automaton,
                    apply::tree_at(nodes, child as nat),
                    states@[child as int],
                ));
            }
        }
        let found = node_state(automaton, tree.symbols[i], children, &states, Ghost(t));
        states.push(found);
        i += 1;
    }
    assert(is_state_of(automaton, apply::tree_at(nodes, (i - 1) as nat), states@[i - 1]));
    states[i - 1]
}

/// Runs a deterministic automaton on trees, with one state for each node.
pub fn run_all_det(automaton: &Explicit, trees: &Vec<FlatTree>) -> (r: RunSummary)
    requires
        deterministic(automaton@.rules),
        forall|i: int| 0 <= i < trees@.len() ==> (#[trigger] trees@[i]).well_formed(),
    ensures
        r.accepted == accepted_total(automaton, trees@),
        r.root_states == root_states_total(automaton, trees@),
{
    let mut accepted: usize = 0;
    let mut root_states: usize = 0;
    let mut i: usize = 0;
    assert(trees@.take(0) =~= Seq::empty());
    while i < trees.len()
        invariant
            i <= trees@.len(),
            deterministic(automaton@.rules),
            forall|j: int| 0 <= j < trees@.len() ==> (#[trigger] trees@[j]).well_formed(),
            accepted <= i,
            root_states <= i,
            accepted == accepted_total(automaton, trees@.take(i as int)),
            root_states == root_states_total(automaton, trees@.take(i as int)),
        decreases trees@.len() - i,
    {
        let found = tree_state(automaton, &trees[i]);
        let ghost t = trees@[i as int].tree();
        let ghost list: Seq<StateId> = match found {
            Some(q) => seq![q],
            None => Seq::empty(),
        };
        proof {
            assert(trees@.take(i + 1).drop_last() =~= trees@.take(i as int));
            assert(trees@.take(i + 1).last() == trees@[i as int]);
            assert forall|q: StateId| #[trigger] list.contains(q) <==> recognition::reaches(
                automaton,
                t,
                q,
            ) by {
                if let Some(p) = found {
                    if recognition::reaches(automaton, t, q) {
                        law_deterministic_states_are_unique(automaton, t, p, q);
                        assert(list[0] == q);
                    }
                }
            }
            lemma_listed_total(automaton, t, list);
        }
        if let Some(q) = found {
            assert(list[0] == q);
            root_states += 1;
            if automaton.is_accepting(&q) {
                accepted += 1;
            }
        }
        i += 1;
    }
    assert(trees@.take(i as int) =~= trees@);
    RunSummary { accepted, root_states }
}

} // verus!
