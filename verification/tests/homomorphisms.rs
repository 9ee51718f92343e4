//! Tests of homomorphisms.
use packed_term_arena::tree::{Tree, TreeArena};
use rusty_alto::bench::image_groups::image_groups;
use rusty_alto::builder::ExplicitBuilder;
use rusty_alto::homomorphism::{HomLabel, Homomorphism, HomomorphismError};
use rusty_alto::ids::Symbol;

fn sym(i: u32) -> Symbol {
    Symbol(i)
}

fn var(arena: &mut TreeArena<HomLabel>, i: usize) -> Tree {
    arena.add_node(HomLabel::Var(i), vec![])
}

fn node(arena: &mut TreeArena<HomLabel>, symbol: Symbol, children: Vec<Tree>) -> Tree {
    arena.add_node(HomLabel::Symbol(symbol), children)
}

#[test]
fn deduplicates_identical_terms() {
    let mut arena = TreeArena::new();
    let v0 = var(&mut arena, 0);
    let v1 = var(&mut arena, 1);
    let term = node(&mut arena, sym(10), vec![v0, v1]);
    let same_v0 = var(&mut arena, 0);
    let same_v1 = var(&mut arena, 1);
    let same = node(&mut arena, sym(10), vec![same_v0, same_v1]);

    let mut h = Homomorphism::new(&arena);
    h.add(sym(0), 2, term).unwrap();
    h.add(sym(1), 2, same).unwrap();

    assert_eq!(h.term_id(sym(0)), h.term_id(sym(1)));
    let labels = h.label_set(h.term_id(sym(0)).unwrap());
    assert!(labels.contains(&sym(0)));
    assert!(labels.contains(&sym(1)));
    assert_eq!(h.num_terms(), 1);
}

#[test]
fn rejects_invalid_nondeleting_terms() {
    let mut arena = TreeArena::new();
    let missing_v0 = var(&mut arena, 0);
    let missing = node(&mut arena, sym(10), vec![missing_v0]);
    let duplicate_v0a = var(&mut arena, 0);
    let duplicate_v0b = var(&mut arena, 0);
    let duplicate = node(&mut arena, sym(10), vec![duplicate_v0a, duplicate_v0b]);
    let out_of_range_v0 = var(&mut arena, 0);
    let out_of_range_v2 = var(&mut arena, 2);
    let out_of_range = node(&mut arena, sym(10), vec![out_of_range_v0, out_of_range_v2]);

    let mut h = Homomorphism::new(&arena);
    assert!(matches!(
        h.add(sym(0), 2, missing),
        Err(HomomorphismError::MissingVariable { variable: 1, .. })
    ));
    assert!(matches!(
        h.add(sym(1), 2, duplicate),
        Err(HomomorphismError::DuplicateVariable { variable: 0, .. })
    ));
    assert!(matches!(
        h.add(sym(2), 2, out_of_range),
        Err(HomomorphismError::OutOfRangeVariable { variable: 2, .. })
    ));
}

#[test]
fn rejects_conflicting_reregistration() {
    let mut arena = TreeArena::new();
    let first_v0 = var(&mut arena, 0);
    let first = node(&mut arena, sym(10), vec![first_v0]);
    let second_v0 = var(&mut arena, 0);
    let second = node(&mut arena, sym(11), vec![second_v0]);

    let mut h = Homomorphism::new(&arena);
    h.add(sym(0), 1, first).unwrap();
    assert!(matches!(
        h.add(sym(0), 2, first),
        Err(HomomorphismError::ArityMismatch { .. })
    ));
    assert!(matches!(
        h.add(sym(0), 1, second),
        Err(HomomorphismError::ConflictingSourceTerm { .. })
    ));
}

#[test]
fn apply_maps_nullary_and_nested_terms() {
    let mut hom_arena = TreeArena::new();
    let leaf_rhs = node(&mut hom_arena, sym(20), vec![]);
    let concat_v0 = var(&mut hom_arena, 0);
    let concat_v1 = var(&mut hom_arena, 1);
    let concat_rhs = node(&mut hom_arena, sym(21), vec![concat_v0, concat_v1]);
    let wrap_rhs = node(&mut hom_arena, sym(22), vec![concat_rhs]);

    let mut hom = Homomorphism::new(&hom_arena);
    hom.add(sym(0), 0, leaf_rhs).unwrap();
    hom.add(sym(1), 2, wrap_rhs).unwrap();

    let mut input = TreeArena::new();
    let l = input.add_node(sym(0), vec![]);
    let r = input.add_node(sym(0), vec![]);
    let root = input.add_node(sym(1), vec![l, r]);

    let mut output = TreeArena::new();
    let out_root = hom.apply(&input, root, &mut output).unwrap();
    assert_eq!(*output.get_label(out_root), sym(22));
    let concat = output.get_children(out_root)[0];
    assert_eq!(*output.get_label(concat), sym(21));
    let leaves = output.get_children(concat);
    assert_eq!(*output.get_label(leaves[0]), sym(20));
    assert_eq!(*output.get_label(leaves[1]), sym(20));
}

#[test]
fn apply_reports_unmapped_symbols() {
    let hom_arena = TreeArena::new();
    let hom = Homomorphism::new(&hom_arena);
    let mut input = TreeArena::new();
    let root = input.add_node(sym(99), vec![]);
    let mut output = TreeArena::new();
    assert!(matches!(
        hom.apply(&input, root, &mut output),
        Err(HomomorphismError::UnmappedSymbol { symbol: Symbol(99) })
    ));
}

#[test]
fn registered_images_are_found_by_symbol_and_by_root() {
    let mut arena = TreeArena::new();
    let v0 = var(&mut arena, 0);
    let unary = node(&mut arena, sym(10), vec![v0]);
    let leaf = node(&mut arena, sym(11), vec![]);
    let mut hom = Homomorphism::new(&arena);
    hom.add(sym(0), 1, unary).unwrap();
    hom.add(sym(1), 0, leaf).unwrap();
    assert_eq!(hom.source_arity(sym(0)), Some(1));
    assert_eq!(hom.source_arity(sym(1)), Some(0));
    assert_eq!(hom.source_arity(sym(2)), None);
    assert_eq!(hom.num_terms(), 2);
    let id = hom.term_id(sym(0)).unwrap();
    assert_eq!(hom.terms_with_root(sym(10)), &[id]);
    assert!(hom.terms_with_root(sym(12)).is_empty());
    assert!(hom.get(sym(2)).is_none());
}

#[test]
fn rules_are_grouped_by_the_images_of_their_symbols() {
    let mut arena = TreeArena::new();
    let v0 = var(&mut arena, 0);
    let v1 = var(&mut arena, 1);
    let pair = node(&mut arena, sym(10), vec![v0, v1]);
    let leaf = node(&mut arena, sym(11), vec![]);
    let mut h = Homomorphism::new(&arena);
    h.add(sym(0), 2, pair).unwrap();
    h.add(sym(1), 2, pair).unwrap();
    h.add(sym(2), 0, leaf).unwrap();
    let mut b = ExplicitBuilder::new();
    let q = b.new_state();
    b.add_rule(sym(2), vec![], q);
    b.add_rule(sym(0), vec![q, q], q);
    b.add_rule(sym(1), vec![q, q], q);
    let groups = image_groups(&b.build(), &h);
    assert_eq!(groups.groups, 2);
    assert_eq!(groups.max_rule_arity, 2);
    assert_eq!(groups.largest, 2);
}

#[test]
fn homomorphism_errors_have_texts() {
    assert_eq!(
        HomomorphismError::ArityMismatch { symbol: sym(4), first: 1, second: 12 }.text(),
        "source symbol Symbol(4) was registered with arity 1, then 12"
    );
    assert_eq!(
        HomomorphismError::UnmappedSymbol { symbol: sym(99) }.text(),
        "source symbol Symbol(99) has no homomorphic image"
    );
    assert_eq!(
        HomomorphismError::ApplyVariableOutOfRange { variable: 2, arity: 1 }.text(),
        "image variable ?2 cannot be substituted for source arity 1"
    );
}
