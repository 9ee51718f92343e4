//! Tests of the automata that are built from other automata.
use packed_term_arena::tree::{Tree, TreeArena};
use rusty_alto::builder::ExplicitBuilder;
use rusty_alto::chart_filter::intersect_chart;
use rusty_alto::combinators::determinized::Determinized;
use rusty_alto::combinators::invhom::InvHom;
use rusty_alto::combinators::mapped::Mapped;
use rusty_alto::combinators::product::Product;
use rusty_alto::control::NeverStop;
use rusty_alto::explicit::Explicit;
use rusty_alto::homomorphism::{HomLabel, Homomorphism};
use rusty_alto::ids::{StateId, Symbol};
use rusty_alto::interner::Interner;
use rusty_alto::symbol_set::SymbolSet;
use rusty_alto::traits::{
    AutomatonState, BottomUpTa, CondensedRule, CondensedTa, CondensedTopDownTa, DetBottomUpTa,
    IndexedBottomUpTa, StateKey, StateUniverse, TopDownTa,
};
use std::cell::Cell;

fn sym(i: u32) -> Symbol {
    Symbol(i)
}

fn var(arena: &mut TreeArena<HomLabel>, i: usize) -> Tree {
    arena.add_node(HomLabel::Var(i), vec![])
}

fn node(arena: &mut TreeArena<HomLabel>, symbol: Symbol, children: Vec<Tree>) -> Tree {
    arena.add_node(HomLabel::Symbol(symbol), children)
}

fn make_inner() -> (Explicit, StateId, StateId, StateId) {
    let mut b = ExplicitBuilder::new();
    let q0 = b.new_state();
    let q1 = b.new_state();
    let qr = b.new_state();
    b.add_rule(sym(10), vec![q0, q1], qr);
    b.add_accepting(qr);
    (b.build(), q0, q1, qr)
}

struct DuplicateInner;

impl BottomUpTa for DuplicateInner {
    type State = StateId;

    fn steps_to(
        &self,
        _f: Symbol,
        _children: vstd::prelude::Seq<StateId>,
        q: StateId,
    ) -> bool {
        q == StateId(7)
    }

    fn accepts(&self, _q: StateId) -> bool {
        false
    }

    fn step(&self, _f: Symbol, _children: &[StateId]) -> Vec<StateId> {
        vec![StateId(7), StateId(7)]
    }

    fn is_accepting(&self, _q: &StateId) -> bool {
        false
    }
}

struct CountingInner {
    all_states_calls: Cell<usize>,
}

impl BottomUpTa for CountingInner {
    type State = StateId;

    fn steps_to(
        &self,
        _f: Symbol,
        _children: vstd::prelude::Seq<StateId>,
        _q: StateId,
    ) -> bool {
        false
    }

    fn accepts(&self, q: StateId) -> bool {
        q == StateId(2)
    }

    fn step(&self, _f: Symbol, _children: &[StateId]) -> Vec<StateId> {
        vec![]
    }

    fn is_accepting(&self, q: &StateId) -> bool {
        *q == StateId(2)
    }
}

impl StateUniverse for CountingInner {
    fn is_state(&self, _q: StateId) -> bool {
        false
    }

    fn all_states(&self) -> Vec<StateId> {
        self.all_states_calls.set(self.all_states_calls.get() + 1);
        vec![]
    }
}

impl CondensedTa for CountingInner {
    fn lists(&self, _f: Symbol, _children: vstd::prelude::Seq<StateId>, _q: StateId) -> bool {
        true
    }

    fn condensed_rules(&self) -> Vec<CondensedRule<StateId>> {
        let mut symbols = SymbolSet::new();
        symbols.insert(sym(10));
        vec![CondensedRule {
            children: vec![StateId(0), StateId(1)],
            symbols,
            result: StateId(2),
        }]
    }

    fn condensed_nullary_rules(&self) -> Vec<CondensedRule<StateId>> {
        vec![]
    }

    fn condensed_rules_by_child(
        &self,
        position: usize,
        state: &StateId,
    ) -> Vec<CondensedRule<StateId>> {
        self.condensed_rules()
            .into_iter()
            .filter(|rule| rule.children.get(position) == Some(state))
            .collect()
    }
}

#[test]
fn product_intersects_languages() {
    let a = Symbol(0);

    let mut left_b = ExplicitBuilder::new();
    let left_q = left_b.new_state();
    left_b.add_rule(a, vec![], left_q);
    left_b.add_accepting(left_q);
    let left = left_b.build();

    let mut right_b = ExplicitBuilder::new();
    let right_q = right_b.new_state();
    right_b.add_rule(a, vec![], right_q);
    right_b.add_accepting(right_q);
    let right = right_b.build();

    let product = Product(left, right);
    let out = product.step(a, &[]);
    assert_eq!(out.len(), 1);
    assert!(product.is_accepting(&out[0]));
    assert_eq!(product.step_det(a, &[]), Some(out[0]));
}

#[test]
fn product_rejects_when_one_side_lacks_rule() {
    let a = Symbol(0);
    let mut left_b = ExplicitBuilder::new();
    let left_q = left_b.new_state();
    left_b.add_rule(a, vec![], left_q);
    left_b.add_accepting(left_q);

    let mut right_b = ExplicitBuilder::new();
    right_b.new_state();

    let product = Product(left_b.build(), right_b.build());
    let out = product.step(a, &[]);
    assert!(out.is_empty());
}

#[test]
fn indexed_product_joins_matching_partial_rules() {
    let a = Symbol(0);
    let f = Symbol(1);

    let mut left_b = ExplicitBuilder::new();
    let left_leaf = left_b.new_state();
    let left_root = left_b.new_state();
    left_b.add_rule(a, vec![], left_leaf);
    left_b.add_rule(f, vec![left_leaf, left_leaf], left_root);
    let left = left_b.build();

    let mut right_b = ExplicitBuilder::new();
    let right_leaf = right_b.new_state();
    let right_root = right_b.new_state();
    right_b.add_rule(a, vec![], right_leaf);
    right_b.add_rule(f, vec![right_leaf, right_leaf], right_root);
    let right = right_b.build();

    let product = Product(left, right);
    let child = (left_leaf, right_leaf);
    let found: Vec<_> = product
        .step_partial(f, 0, &child)
        .into_iter()
        .map(|t| (t.children, t.result))
        .collect();

    assert_eq!(found, vec![(vec![child, child], (left_root, right_root))]);
}

#[test]
fn product_topdown_joins_by_parent_and_symbol() {
    let a = Symbol(0);

    let mut left_b = ExplicitBuilder::new();
    let left_q = left_b.new_state();
    left_b.add_rule(a, vec![], left_q);
    left_b.add_accepting(left_q);

    let mut right_b = ExplicitBuilder::new();
    let right_q = right_b.new_state();
    right_b.add_rule(a, vec![], right_q);
    right_b.add_accepting(right_q);

    let product = Product(left_b.build(), right_b.build());
    let parent = (left_q, right_q);
    let rules: Vec<_> = product
        .step_topdown(&parent)
        .into_iter()
        .map(|t| (t.symbol, t.children))
        .collect();

    assert_eq!(rules, vec![(a, Vec::new())]);
}

#[test]
fn maps_symbols_for_deterministic_steps() {
    let external_a = Symbol(7);
    let inner_a = Symbol(0);
    let mut builder = ExplicitBuilder::new();
    let q = builder.new_state();
    builder.add_rule(inner_a, vec![], q);
    let mapped = Mapped::new(
        builder.build(),
        move |f| {
            if f == external_a { inner_a } else { f }
        },
    );

    assert_eq!(mapped.step_det(external_a, &[]), Some(q));
}

#[test]
fn maps_symbols_for_indexed_steps() {
    let external_f = Symbol(8);
    let inner_f = Symbol(1);
    let mut builder = ExplicitBuilder::new();
    let q0 = builder.new_state();
    let q1 = builder.new_state();
    builder.add_rule(inner_f, vec![q0], q1);
    let mapped = Mapped::new(
        builder.build(),
        move |f| {
            if f == external_f { inner_f } else { f }
        },
    );

    let found: Vec<_> = mapped
        .step_partial(external_f, 0, &q0)
        .into_iter()
        .map(|t| (t.children, t.result))
        .collect();

    assert_eq!(found, vec![(vec![q0], q1)]);
}

#[test]
fn determinizes_nullary_nondeterminism() {
    let mut b = ExplicitBuilder::new();
    let q0 = b.new_state();
    let q1 = b.new_state();
    b.add_rule(Symbol(0), vec![], q0);
    b.add_rule(Symbol(0), vec![], q1);
    b.add_accepting(q1);
    let det = Determinized(b.build());
    let state = det.step_det(Symbol(0), &[]).unwrap();
    assert_eq!(state.len(), 2);
    assert!(det.is_accepting(&state));
}

#[test]
fn depth1_step_delegates_to_inner() {
    let (inner, q0, q1, qr) = make_inner();
    let mut arena = TreeArena::new();
    let v0 = var(&mut arena, 0);
    let v1 = var(&mut arena, 1);
    let rhs = node(&mut arena, sym(10), vec![v0, v1]);
    let mut hom = Homomorphism::new(&arena);
    hom.add(sym(0), 2, rhs).unwrap();
    let inv = InvHom::new(inner, &hom);

    let out = inv.step(sym(0), &[q0, q1]);
    assert_eq!(out, vec![qr]);
    assert!(inv.is_accepting(&qr));
}

#[test]
fn step_deduplicates_results() {
    let mut arena = TreeArena::new();
    let v0 = var(&mut arena, 0);
    let rhs = node(&mut arena, sym(10), vec![v0]);
    let mut hom = Homomorphism::new(&arena);
    hom.add(sym(0), 1, rhs).unwrap();
    let inv = InvHom::new(DuplicateInner, &hom);

    let out = inv.step(sym(0), &[StateId(0)]);
    assert_eq!(out, vec![StateId(7)]);
}

#[test]
fn depth1_step_det_delegates_to_inner() {
    let (inner, q0, q1, qr) = make_inner();
    let mut arena = TreeArena::new();
    let v0 = var(&mut arena, 0);
    let v1 = var(&mut arena, 1);
    let rhs = node(&mut arena, sym(10), vec![v0, v1]);
    let mut hom = Homomorphism::new(&arena);
    hom.add(sym(0), 2, rhs).unwrap();
    let inv = InvHom::new(inner, &hom);
    assert_eq!(inv.step_det(sym(0), &[q0, q1]), Some(qr));
    assert_eq!(inv.step_det(sym(0), &[q1, q0]), None);
}

#[test]
fn unmapped_symbol_emits_nothing() {
    let (inner, q0, q1, _qr) = make_inner();
    let arena = TreeArena::new();
    let hom = Homomorphism::new(&arena);
    let inv = InvHom::new(inner, &hom);
    let out = inv.step(sym(99), &[q0, q1]);
    assert!(out.is_empty());
}

#[test]
fn nullary_ground_term_evaluates_correctly() {
    let mut b = ExplicitBuilder::new();
    let qa = b.new_state();
    b.add_rule(sym(20), vec![], qa);
    b.add_accepting(qa);
    let inner = b.build();

    let mut arena = TreeArena::new();
    let rhs = node(&mut arena, sym(20), vec![]);
    let mut hom = Homomorphism::new(&arena);
    hom.add(sym(0), 0, rhs).unwrap();
    let inv = InvHom::new(inner, &hom);

    let out = inv.step(sym(0), &[]);
    assert_eq!(out, vec![qa]);
    assert!(inv.is_accepting(&qa));
}

#[test]
fn depth2_term_evaluates_correctly() {
    let mut b = ExplicitBuilder::new();
    let q_leaf = b.new_state();
    let q_inner = b.new_state();
    let q1 = b.new_state();
    let qr = b.new_state();
    b.add_rule(sym(5), vec![q_leaf], q_inner);
    b.add_rule(sym(6), vec![q_inner, q1], qr);
    b.add_accepting(qr);
    let inner = b.build();

    let mut arena = TreeArena::new();
    let wrapped_v0 = var(&mut arena, 0);
    let wrapped = node(&mut arena, sym(5), vec![wrapped_v0]);
    let v1 = var(&mut arena, 1);
    let rhs = node(&mut arena, sym(6), vec![wrapped, v1]);
    let mut hom = Homomorphism::new(&arena);
    hom.add(sym(0), 2, rhs).unwrap();
    let inv = InvHom::new(inner, &hom);

    let out = inv.step(sym(0), &[q_leaf, q1]);
    assert_eq!(out, vec![qr]);
}

#[test]
fn condensed_depth1_groups_source_symbols() {
    let (inner, q0, q1, qr) = make_inner();
    let mut arena = TreeArena::new();
    let v0 = var(&mut arena, 0);
    let v1 = var(&mut arena, 1);
    let rhs = node(&mut arena, sym(10), vec![v0, v1]);
    let same_v0 = var(&mut arena, 0);
    let same_v1 = var(&mut arena, 1);
    let same = node(&mut arena, sym(10), vec![same_v0, same_v1]);
    let mut hom = Homomorphism::new(&arena);
    hom.add(sym(0), 2, rhs).unwrap();
    hom.add(sym(1), 2, same).unwrap();
    let inv = InvHom::new(inner, &hom);

    let groups: Vec<(Vec<StateId>, SymbolSet, StateId)> = inv
        .condensed_rules()
        .into_iter()
        .map(|group| (group.children, group.symbols, group.result))
        .collect();

    assert_eq!(groups.len(), 1);
    assert_eq!(groups[0].0, vec![q0, q1]);
    assert!(groups[0].1.contains(sym(0)));
    assert!(groups[0].1.contains(sym(1)));
    assert_eq!(groups[0].2, qr);
}

#[test]
fn indexed_condensed_depth1_uses_hom_label_sets() {
    let (inner, q0, q1, qr) = make_inner();
    let mut arena = TreeArena::new();
    let v0 = var(&mut arena, 0);
    let v1 = var(&mut arena, 1);
    let rhs = node(&mut arena, sym(10), vec![v0, v1]);
    let same_v0 = var(&mut arena, 0);
    let same_v1 = var(&mut arena, 1);
    let same = node(&mut arena, sym(10), vec![same_v0, same_v1]);
    let mut hom = Homomorphism::new(&arena);
    hom.add(sym(0), 2, rhs).unwrap();
    hom.add(sym(1), 2, same).unwrap();
    let inv = InvHom::new(inner, &hom);

    let groups: Vec<(Vec<StateId>, SymbolSet, StateId)> = inv
        .condensed_rules_by_child(0, &q0)
        .into_iter()
        .map(|group| (group.children, group.symbols, group.result))
        .collect();

    assert_eq!(groups.len(), 1);
    assert_eq!(groups[0].0, vec![q0, q1]);
    assert!(groups[0].1.contains(sym(0)));
    assert!(groups[0].1.contains(sym(1)));
    assert_eq!(groups[0].2, qr);
}

#[test]
fn topdown_condensed_depth1_uses_hom_label_sets() {
    let (inner, q0, q1, qr) = make_inner();
    let mut arena = TreeArena::new();
    let v0 = var(&mut arena, 0);
    let v1 = var(&mut arena, 1);
    let rhs = node(&mut arena, sym(10), vec![v0, v1]);
    let same_v0 = var(&mut arena, 0);
    let same_v1 = var(&mut arena, 1);
    let same = node(&mut arena, sym(10), vec![same_v0, same_v1]);
    let mut hom = Homomorphism::new(&arena);
    hom.add(sym(0), 2, rhs).unwrap();
    hom.add(sym(1), 2, same).unwrap();
    let inv = InvHom::new(inner, &hom);

    let groups: Vec<(Vec<StateId>, SymbolSet)> = inv
        .condensed_rules_by_parent(&qr)
        .into_iter()
        .map(|group| (group.children, group.symbols))
        .collect();

    assert_eq!(groups.len(), 1);
    assert_eq!(groups[0].0, vec![q0, q1]);
    assert!(groups[0].1.contains(sym(0)));
    assert!(groups[0].1.contains(sym(1)));
}

#[test]
fn condensed_nested_rhs_matches_step_enumeration() {
    let mut b = ExplicitBuilder::new();
    let q_leaf = b.new_state();
    let q_inner = b.new_state();
    let q1 = b.new_state();
    let qr = b.new_state();
    b.add_rule(sym(5), vec![q_leaf], q_inner);
    b.add_rule(sym(6), vec![q_inner, q1], qr);
    let inner = b.build();

    let mut arena = TreeArena::new();
    let wrapped_v0 = var(&mut arena, 0);
    let wrapped = node(&mut arena, sym(5), vec![wrapped_v0]);
    let v1 = var(&mut arena, 1);
    let rhs = node(&mut arena, sym(6), vec![wrapped, v1]);
    let mut hom = Homomorphism::new(&arena);
    hom.add(sym(0), 2, rhs).unwrap();
    let inv = InvHom::new(inner, &hom);

    let mut condensed = Vec::new();
    for group in inv.condensed_rules() {
        for src in group.symbols.as_slice() {
            condensed.push((*src, group.children.clone(), group.result));
        }
    }

    let mut stepped = Vec::new();
    for q in inv.step(sym(0), &[q_leaf, q1]) {
        stepped.push((sym(0), vec![q_leaf, q1], q));
    }
    condensed.sort();
    stepped.sort();
    assert_eq!(condensed, stepped);
}

#[test]
fn topdown_condensed_nested_rhs_streams_matches() {
    let mut b = ExplicitBuilder::new();
    let q_leaf = b.new_state();
    let q_inner = b.new_state();
    let q1 = b.new_state();
    let qr = b.new_state();
    b.add_rule(sym(5), vec![q_leaf], q_inner);
    b.add_rule(sym(6), vec![q_inner, q1], qr);
    let inner = b.build();

    let mut arena = TreeArena::new();
    let wrapped_v0 = var(&mut arena, 0);
    let wrapped = node(&mut arena, sym(5), vec![wrapped_v0]);
    let v1 = var(&mut arena, 1);
    let rhs = node(&mut arena, sym(6), vec![wrapped, v1]);
    let mut hom = Homomorphism::new(&arena);
    hom.add(sym(0), 2, rhs).unwrap();
    let inv = InvHom::new(inner, &hom);

    let groups: Vec<(Vec<StateId>, SymbolSet)> = inv
        .condensed_rules_by_parent(&qr)
        .into_iter()
        .map(|group| (group.children, group.symbols))
        .collect();

    assert_eq!(groups.len(), 1);
    assert_eq!(groups[0].0, vec![q_leaf, q1]);
    assert!(groups[0].1.contains(sym(0)));
}

#[test]
fn condensed_supports_ground_subterms() {
    let mut b = ExplicitBuilder::new();
    let qa = b.new_state();
    let qx = b.new_state();
    let qr = b.new_state();
    b.add_rule(sym(3), vec![], qa);
    b.add_rule(sym(4), vec![qa, qx], qr);
    let inner = b.build();

    let mut arena = TreeArena::new();
    let ground = node(&mut arena, sym(3), vec![]);
    let v0 = var(&mut arena, 0);
    let rhs = node(&mut arena, sym(4), vec![ground, v0]);
    let mut hom = Homomorphism::new(&arena);
    hom.add(sym(0), 1, rhs).unwrap();
    let inv = InvHom::new(inner, &hom);

    let groups: Vec<(Vec<StateId>, SymbolSet, StateId)> = inv
        .condensed_rules()
        .into_iter()
        .map(|group| (group.children, group.symbols, group.result))
        .collect();

    assert_eq!(groups.len(), 1);
    assert_eq!(groups[0].0, vec![qx]);
    assert!(groups[0].1.contains(sym(0)));
    assert_eq!(groups[0].2, qr);
}

#[test]
fn condensed_supports_bare_variable_rhs() {
    let mut b = ExplicitBuilder::new();
    let q0 = b.new_state();
    let q1 = b.new_state();
    b.add_rule(sym(10), vec![], q0);
    b.add_rule(sym(11), vec![], q1);
    let inner = b.build();

    let mut arena = TreeArena::new();
    let rhs = var(&mut arena, 0);
    let mut hom = Homomorphism::new(&arena);
    hom.add(sym(0), 1, rhs).unwrap();
    let inv = InvHom::new(inner, &hom);

    let mut groups: Vec<(Vec<StateId>, SymbolSet, StateId)> = inv
        .condensed_rules()
        .into_iter()
        .map(|group| (group.children, group.symbols, group.result))
        .collect();
    groups.sort_by_key(|(children, _, result)| (children.clone(), *result));

    assert_eq!(groups.len(), 2);
    assert_eq!(groups[0].0, vec![q0]);
    assert_eq!(groups[0].2, q0);
    assert!(groups[0].1.contains(sym(0)));
    assert_eq!(groups[1].0, vec![q1]);
    assert_eq!(groups[1].2, q1);
    assert!(groups[1].1.contains(sym(0)));
}

#[test]
fn condensed_constrained_variables_do_not_enumerate_universe() {
    let inner = CountingInner {
        all_states_calls: Cell::new(0),
    };
    let mut arena = TreeArena::new();
    let v0 = var(&mut arena, 0);
    let v1 = var(&mut arena, 1);
    let rhs = node(&mut arena, sym(10), vec![v0, v1]);
    let mut hom = Homomorphism::new(&arena);
    hom.add(sym(0), 2, rhs).unwrap();
    let inv = InvHom::new(inner, &hom);

    let rules: Vec<(Vec<StateId>, SymbolSet, StateId)> = inv
        .condensed_rules()
        .into_iter()
        .map(|group| (group.children, group.symbols, group.result))
        .collect();

    assert_eq!(rules.len(), 1);
    assert_eq!(rules[0].0, vec![StateId(0), StateId(1)]);
    assert_eq!(rules[0].2, StateId(2));
    assert_eq!(inv.inner().all_states_calls.get(), 0);
}

#[test]
fn interns_stably() {
    let mut interner = Interner::new();
    let a = interner.intern("a");
    let b = interner.intern("b");
    assert_eq!(a, interner.intern("a"));
    assert_ne!(a, b);
    assert_eq!(interner.resolve(a), &"a");
    assert_eq!(interner.get(&"b"), Some(b));
}

#[test]
fn interner_counts_distinct_values() {
    let mut interner = Interner::new();
    assert!(interner.is_empty());
    interner.intern((StateId(3), StateId(4)));
    interner.intern((StateId(4), StateId(3)));
    interner.intern((StateId(3), StateId(4)));
    assert_eq!(interner.len(), 2);
    assert_eq!(interner.get(&(StateId(0), StateId(0))), None);
}

#[test]
fn determinized_steps_join_all_choices() {
    let mut b = ExplicitBuilder::new();
    let q0 = b.new_state();
    let q1 = b.new_state();
    let q2 = b.new_state();
    b.add_rule(sym(0), vec![], q0);
    b.add_rule(sym(0), vec![], q1);
    b.add_rule(sym(1), vec![q0], q2);
    b.add_rule(sym(1), vec![q1], q0);
    let det = Determinized(b.build());
    let leaf = det.step_det(sym(0), &[]).unwrap();
    assert_eq!(leaf.members(), vec![q0, q1]);
    let root = det.step_det(sym(1), &[leaf]).unwrap();
    assert_eq!(root.members(), vec![q0, q2]);
    assert!(det.step_det(sym(9), &[]).is_none());
}

#[test]
fn determinized_sets_do_not_depend_on_the_order_of_rules() {
    let mut b = ExplicitBuilder::new();
    let q0 = b.new_state();
    let q1 = b.new_state();
    let q2 = b.new_state();
    for (symbol, order) in [(0, [q2, q0, q1]), (1, [q1, q2, q0])] {
        for q in order {
            b.add_rule(sym(symbol), vec![], q);
        }
    }
    let det = Determinized(b.build());
    let one = det.step_det(sym(0), &[]).unwrap();
    let other = det.step_det(sym(1), &[]).unwrap();
    assert_eq!(one.members(), vec![q0, q1, q2]);
    assert_eq!(one.to_key(), other.to_key());
}

#[test]
fn determinized_automata_can_be_intersected() {
    let make = || {
        let mut b = ExplicitBuilder::new();
        let q0 = b.new_state();
        let q1 = b.new_state();
        b.add_rule(sym(0), vec![], q0);
        b.add_rule(sym(0), vec![], q1);
        b.add_rule(sym(1), vec![q0], q1);
        b.add_accepting(q1);
        b.build()
    };
    let det = Determinized(make());
    let (product, pairs) = intersect_chart(&make(), &det, &NeverStop).ok().unwrap();
    let mut found: Vec<(StateId, Vec<StateId>)> = (0..product.num_states())
        .map(|i| {
            let pair = pairs.resolve(StateId(i));
            (pair.0, pair.1.members())
        })
        .collect();
    found.sort();
    let (q0, q1) = (StateId(0), StateId(1));
    assert_eq!(found, vec![(q0, vec![q0, q1]), (q1, vec![q0, q1]), (q1, vec![q1])]);
    assert_eq!(product.num_rules(), 3);
}

/// How many nodes stand above a leaf.
enum Height {
    Leaf,
    Over(Box<Height>),
}

impl StateKey for Height {
    fn key(&self) -> vstd::prelude::Seq<u32> {
        unreachable!()
    }

    fn to_key(&self) -> Vec<u32> {
        match self {
            Height::Leaf => vec![],
            Height::Over(below) => {
                let mut word = below.to_key();
                word.push(1);
                word
            }
        }
    }
}

impl AutomatonState for Height {
    fn duplicate(&self) -> Self {
        match self {
            Height::Leaf => Height::Leaf,
            Height::Over(below) => Height::Over(Box::new(below.duplicate())),
        }
    }

    fn key_injective(_a: Self, _b: Self) {
        unreachable!()
    }
}

/// Accepts the chains of a height that is even.
struct EvenChains;

impl BottomUpTa for EvenChains {
    type State = Height;

    fn steps_to(
        &self,
        _f: Symbol,
        _children: vstd::prelude::Seq<Height>,
        _q: Height,
    ) -> bool {
        unreachable!()
    }

    fn accepts(&self, _q: Height) -> bool {
        unreachable!()
    }

    fn step(&self, _f: Symbol, children: &[Height]) -> Vec<Height> {
        match children {
            [] => vec![Height::Leaf],
            [below] => vec![Height::Over(Box::new(below.duplicate()))],
            _ => vec![],
        }
    }

    fn is_accepting(&self, q: &Height) -> bool {
        q.to_key().len() % 2 == 0
    }
}

#[test]
fn states_may_be_of_any_size() {
    let mut b = ExplicitBuilder::new();
    let states: Vec<StateId> = (0..4).map(|_| b.new_state()).collect();
    b.add_rule(sym(0), vec![], states[0]);
    for i in 1..4 {
        b.add_rule(sym(1), vec![states[i - 1]], states[i]);
    }
    b.add_accepting(states[2]);
    b.add_accepting(states[3]);
    let (product, pairs) = intersect_chart(&b.build(), &EvenChains, &NeverStop).ok().unwrap();
    assert_eq!(product.num_states(), 4);
    assert_eq!(product.num_rules(), 4);
    let accepting: Vec<usize> = (0..4u32)
        .filter(|i| product.is_accepting(&StateId(*i)))
        .map(|i| pairs.resolve(StateId(i)).1.to_key().len())
        .collect();
    assert_eq!(accepting, vec![2]);
}
