//! Building a grammar from what is written down.
use super::draft;
use super::draft::{draft_grammar, find_slot, Draft, DraftError, DraftFault, Drafting, Image, ImageEntry, Slot};
use super::grammar;
use super::ranks;
use super::grammar::{
    algebra_kind, check_images, Interpretation, InterpretationKind, InterpretationModel,
};
use super::lowering::LowerError;
use crate::alto_ast;
use crate::alto_ast::{AstInterpretationDecl, AstIrtg, IrtgAst};
use crate::arena;
use crate::arena::hom_arena;
use crate::automaton;
use crate::automaton::Automaton;
use crate::builder;
use crate::builder::ExplicitBuildError;
use crate::explicit::Explicit;
use crate::homomorphism::{HomModel, HomomorphismError};
use crate::ids::Symbol;
use crate::interner::Interner;
use crate::signature;
use crate::signature::{NameList, Signature, SignatureError, SignatureFault};
use crate::terms::Term;
use crate::text;
use crate::weight::Weight;
use packed_term_arena::tree::Tree;
use vstd::prelude::*;

verus! {

/// Why a grammar cannot be built or used.
#[derive(Debug)]
pub enum IrtgError {
    /// The caller asked to stop. Nothing of what was done so far is returned.
    Cancelled,
    /// A chart needs more states or rules than can be numbered.
    TooLarge,
    /// Variables are numbered from one; `?0` occurs.
    ZeroVariable,
    /// A signature refused a symbol.
    Signature(SignatureError),
    /// A homomorphism refused an image.
    Homomorphism(HomomorphismError),
    /// The grammar automaton has a transition twice.
    Automaton(ExplicitBuildError),
    /// A named interpretation was not found.
    UnknownInterpretation(String),
    /// A parse input has a value of another kind than its interpretation.
    WrongInputType { interpretation: String },
    /// An interpretation that only has output was used as a parse input.
    NotInputable { interpretation: String },
    /// An interpretation's algebra has no filter for defined values.
    NonNullFilterUnsupported { interpretation: String, class_name: String },
    /// The heuristic is not defined for the interpretation's algebra.
    IncompatibleHeuristic { interpretation: String, message: String },
    /// The declared algebra is not known.
    UnsupportedAlgebra { interpretation: String, class_name: String },
    /// A* needs rule weights of at most one; the first rule with a greater weight is
    /// named.
    AstarWeightPrecondition { weight: Weight, symbol: String },
}

/// Whether the interpretation of declaration `k` was declared before.
pub open spec fn seen_before(decls: Seq<(Seq<char>, Seq<char>)>, k: int) -> bool {
    exists|j: int| 0 <= j < k && (#[trigger] decls[j]).0 == decls[k].0
}

/// Whether an interpretation is declared only once.
pub open spec fn declared_once(decls: Seq<(Seq<char>, Seq<char>)>, name: Seq<char>) -> bool {
    forall|i: int, j: int|
        0 <= i < j < decls.len() && (#[trigger] decls[i]).0 == name ==> (#[trigger] decls[j]).0
            != name
}

/// What is wrong with a declaration.
pub enum DeclFault {
    Unsupported,
    Append(SignatureFault),
}

/// What is wrong with declaration `k`: its algebra is unknown, or it needs the symbol
/// `_@_` with two children and has it with another number.
pub open spec fn decl_fault(decls: Seq<(Seq<char>, Seq<char>)>, d: Draft, k: int) -> Option<
    DeclFault,
> {
    match grammar::kind_of(decls[k].1) {
        None => Some(DeclFault::Unsupported),
        Some(kind) => if kind == InterpretationKind::BinarizedTagTree && !seen_before(decls, k) {
            let slot = draft::slot_of(draft::slots_of(decls), decls[k].0)->0;
            match signature::interned(d.algebra_names[slot], "_@_"@, 2) {
                Err(e) => Some(DeclFault::Append(e)),
                Ok(_) => None,
            }
        } else {
            None
        },
    }
}

/// Whether declaration `k` is the first with something wrong.
pub open spec fn first_decl_fault(
    decls: Seq<(Seq<char>, Seq<char>)>,
    d: Draft,
    k: int,
) -> bool {
    &&& 0 <= k < decls.len()
    &&& decl_fault(decls, d, k) is Some
    &&& forall|j: int| 0 <= j < k ==> #[trigger] decl_fault(decls, d, j) is None
}

/// Whether nothing is wrong with the declarations.
pub open spec fn decls_ok(decls: Seq<(Seq<char>, Seq<char>)>, d: Draft) -> bool {
    forall|k: int| 0 <= k < decls.len() ==> #[trigger] decl_fault(decls, d, k) is None
}

/// Whether an error says what is wrong with a declaration.
pub open spec fn says(decl: (Seq<char>, Seq<char>), fault: DeclFault, e: IrtgError) -> bool {
    match fault {
        DeclFault::Unsupported => e matches IrtgError::UnsupportedAlgebra {
            interpretation,
            class_name,
        } && interpretation@ == decl.0 && class_name@ == decl.1,
        DeclFault::Append(f) => e matches IrtgError::Signature(s) && s@ == f,
    }
}

/// The interpretation at place `s`. One that is declared again has lost its symbols and
/// images.
pub open spec fn interpretation_at(
    decls: Seq<(Seq<char>, Seq<char>)>,
    d: Draft,
    s: int,
) -> InterpretationModel {
    let slot = draft::slots_of(decls)[s];
    let once = declared_once(decls, slot.0);
    let names = if once {
        d.algebra_names[s]
    } else {
        NameList::empty()
    };
    InterpretationModel {
        name: slot.0,
        class_name: slot.1,
        kind: grammar::kind_of(slot.1)->0,
        names: if grammar::kind_of(slot.1) == Some(InterpretationKind::BinarizedTagTree) {
            signature::interned(names, "_@_"@, 2)->Ok_0.1
        } else {
            names
        },
        images: if once {
            grammar::slot_images(d.images, s as nat)
        } else {
            Seq::empty()
        },
    }
}

/// What a grammar is.
pub struct IrtgModel {
    pub automaton: Automaton,
    pub states: Seq<Seq<char>>,
    pub names: NameList,
    pub interpretations: Seq<InterpretationModel>,
}

/// The grammar that declarations and rules without faults make.
pub open spec fn assembled(decls: Seq<(Seq<char>, Seq<char>)>, d: Draft) -> IrtgModel {
    IrtgModel {
        automaton: Automaton {
            states: d.states.len(),
            accepting: d.accepting,
            rules: d.rules,
        },
        states: d.states,
        names: d.names,
        interpretations: Seq::new(
            draft::slots_of(decls).len(),
            |s: int| interpretation_at(decls, d, s),
        ),
    }
}

/// An interpreted regular tree grammar.
pub struct Irtg {
    grammar: Explicit,
    states: Interner<String>,
    grammar_signature: Signature,
    interpretations: Vec<Interpretation>,
}

/// What interpretations are.
pub open spec fn interpretation_views(list: Seq<Interpretation>) -> Seq<InterpretationModel> {
    Seq::new(list.len(), |i: int| list[i]@)
}

impl View for Irtg {
    type V = IrtgModel;

    closed spec fn view(&self) -> IrtgModel {
        IrtgModel {
            automaton: self.grammar@,
            states: text::texts(self.states@),
            names: self.grammar_signature@,
            interpretations: interpretation_views(self.interpretations@),
        }
    }
}

impl Irtg {
    /// Every state has a name, and rules and images agree on numbers of children.
    #[verifier::type_invariant]
    spec fn wf(&self) -> bool {
        self.grammar@.states == self.states@.len() && ranks::ranks_agree(self@)
    }

    /// The grammar automaton.
    pub fn grammar(&self) -> (a: &Explicit)
        ensures
            a@ == self@.automaton,
    {
        &self.grammar
    }

    /// The grammar signature.
    pub fn grammar_signature(&self) -> (s: &Signature)
        ensures
            s@ == self@.names,
    {
        &self.grammar_signature
    }

    /// The names of the grammar states.
    pub fn states(&self) -> (s: &Interner<String>)
        ensures
            text::texts(s@) == self@.states,
            s@.len() == self@.automaton.states,
    {
        proof {
            use_type_invariant(self);
        }
        &self.states
    }

    /// The interpretations.
    pub fn interpretations(&self) -> (list: &Vec<Interpretation>)
        ensures
            interpretation_views(list@) == self@.interpretations,
            ranks::ranks_agree(self@),
    {
        proof {
            use_type_invariant(self);
        }
        &self.interpretations
    }
}

/// What building a grammar owes: the grammar, or the first fault. Faults of rules and
/// images come first, in the order of the rules, then those of declarations, then
/// repeated transitions.
pub open spec fn build_outcome(ast: IrtgAst, r: Result<Irtg, IrtgError>) -> bool {
    let slots = draft::slots_of(ast.interpretations);
    let (d, fault) = draft::drafted(slots, ast.rules);
    if !grammar::registrable(d.images) {
        r matches Err(IrtgError::Homomorphism(e)) && exists|k: int| #[trigger]
            grammar::bad_image(d.images, k, e)
    } else if let Some(f) = fault {
        match f {
            DraftFault::UnknownInterpretation(name) => r matches Err(
                IrtgError::UnknownInterpretation(n),
            ) && n@ == name,
            DraftFault::ZeroVariable => r matches Err(IrtgError::ZeroVariable),
            DraftFault::Signature(s) => r matches Err(IrtgError::Signature(e)) && e@ == s,
        }
    } else if !decls_ok(ast.interpretations, d) {
        exists|k: int| #[trigger]
            first_decl_fault(ast.interpretations, d, k) && r is Err && says(
                ast.interpretations[k],
                decl_fault(ast.interpretations, d, k)->0,
                r->Err_0,
            )
    } else if !automaton::unique_transitions(d.rules) {
        r matches Err(IrtgError::Automaton(e)) && builder::names_first_repeat(e, d.rules)
    } else {
        r matches Ok(g) && g@ == assembled(ast.interpretations, d)
    }
}

/// The images of an interpretation so far are the first of all its images.
proof fn lemma_slot_prefix(images: Seq<Image>, slot: nat, k: int)
    requires
        0 <= k <= images.len(),
    ensures
        grammar::slot_images(images.take(k), slot).is_prefix_of(
            grammar::slot_images(images, slot),
        ),
    decreases images.len(),
{
    if k < images.len() {
        assert(images.drop_last().take(k) =~= images.take(k));
        lemma_slot_prefix(images.drop_last(), slot, k);
    } else {
        assert(images.take(k) =~= images);
    }
}

/// A refused image keeps the images from making homomorphisms.
proof fn lemma_bad_image(images: Seq<Image>, k: int, e: HomomorphismError)
    requires
        grammar::bad_image(images, k, e),
    ensures
        !grammar::registrable(images),
{
    let slot = images[k].slot;
    let prior = images.take(k);
    let now = images.take(k + 1);
    let m = choose|m: HomModel|
        grammar::registered(grammar::slot_images(prior, slot), m)
            && #[trigger] crate::homomorphism::add_result(
            m,
            images[k].symbol,
            images[k].arity,
            images[k].term,
            Err(e),
            m,
        );
    if grammar::registrable(images) {
        assert(grammar::slot_registrable(images, slot));
        let all = grammar::slot_images(images, slot);
        let whole = choose|m: HomModel| grammar::registered(all, m);
        assert(now.drop_last() =~= prior);
        assert(now.last() == images[k]);
        let list = grammar::slot_images(now, slot);
        lemma_slot_prefix(images, slot, k + 1);
        let n = list.len() as int;
        assert(all.take(n) =~= list);
        let reached = grammar::lemma_registered_prefix(all, whole, n);
        let earlier = choose|before: HomModel|
            grammar::registered(list.drop_last(), before)
                && #[trigger] crate::homomorphism::add_result(
                before,
                list.last().0,
                list.last().1,
                list.last().2,
                Ok(()),
                reached,
            );
        assert(list.drop_last() =~= grammar::slot_images(prior, slot));
        grammar::law_registration_is_determined(grammar::slot_images(prior, slot), earlier, m);
    }
}

/// Every place holds a declaration.
pub proof fn lemma_slot_declared(decls: Seq<(Seq<char>, Seq<char>)>, s: int) -> (k: int)
    requires
        0 <= s < draft::slots_of(decls).len(),
    ensures
        0 <= k < decls.len(),
        decls[k] == draft::slots_of(decls)[s],
    decreases decls.len(),
{
    let before = draft::slots_of(decls.drop_last());
    match draft::slot_of(before, decls.last().0) {
        Some(i) => if s == i {
            decls.len() - 1
        } else {
            let k = lemma_slot_declared(decls.drop_last(), s);
            k
        },
        None => if s == before.len() {
            decls.len() - 1
        } else {
            lemma_slot_declared(decls.drop_last(), s)
        },
    }
}

/// Whether the interpretation of declaration `k` was declared before.
fn is_seen_before(decls: &Vec<AstInterpretationDecl>, k: usize) -> (b: bool)
    requires
        k < decls@.len(),
    ensures
        b == seen_before(alto_ast::interpretation_views(decls@), k as int),
{
    let ghost all = alto_ast::interpretation_views(decls@);
    let mut j: usize = 0;
    while j < k
        invariant
            j <= k,
            k < decls@.len(),
            all == alto_ast::interpretation_views(decls@),
            forall|i: int| 0 <= i < j ==> (#[trigger] all[i]).0 != all[k as int].0,
        decreases k - j,
    {
        assert(all[j as int].0 == decls@[j as int].name@);
        if text::same_text(&decls[j].name, &decls[k].name) {
            return true;
        }
        j += 1;
    }
    false
}

/// Whether an interpretation is declared only once.
fn is_declared_once(decls: &Vec<AstInterpretationDecl>, name: &String) -> (b: bool)
    ensures
        b == declared_once(alto_ast::interpretation_views(decls@), name@),
{
    let ghost all = alto_ast::interpretation_views(decls@);
    let mut k: usize = 0;
    while k < decls.len()
        invariant
            k <= decls@.len(),
            all == alto_ast::interpretation_views(decls@),
            forall|i: int, j: int|
                0 <= i < j < k && (#[trigger] all[i]).0 == name@ ==> (#[trigger] all[j]).0 != name@,
        decreases decls@.len() - k,
    {
        assert(all[k as int].0 == decls@[k as int].name@);
        if text::same_text(&decls[k].name, name) && is_seen_before(decls, k) {
            proof {
                let j = choose|j: int| 0 <= j < k && (#[trigger] all[j]).0 == all[k as int].0;
                assert(all[j].0 == name@);
                assert(!declared_once(all, name@));
            }
            return false;
        }
        proof {
            assert forall|i: int, j: int|
                0 <= i < j < k + 1 && (#[trigger] all[i]).0 == name@ implies (#[trigger] all[j]).0
                != name@ by {
                if j == k && all[j].0 == name@ {
                    assert(seen_before(all, k as int));
                }
            }
        }
        k += 1;
    }
    true
}

/// Reports the first declaration with something wrong.
fn check_decls(decls: &Vec<AstInterpretationDecl>, slots: &Vec<Slot>, Ghost(d): Ghost<Draft>) -> (r:
    Option<IrtgError>)
    requires
        draft::slot_views(slots@) == draft::slots_of(alto_ast::interpretation_views(decls@)),
        draft::slots_differ(draft::slot_views(slots@)),
        d.algebra_names.len() == slots@.len(),
        forall|i: int| 0 <= i < slots@.len() ==> (#[trigger] slots@[i]).names@ == d.algebra_names[i],
    ensures
        match r {
            None => decls_ok(alto_ast::interpretation_views(decls@), d),
            Some(e) => exists|k: int| #[trigger]
                first_decl_fault(alto_ast::interpretation_views(decls@), d, k) && says(
                    alto_ast::interpretation_views(decls@)[k],
                    decl_fault(alto_ast::interpretation_views(decls@), d, k)->0,
                    e,
                ),
        },
{
    let ghost all = alto_ast::interpretation_views(decls@);
    let mut k: usize = 0;
    while k < decls.len()
        invariant
            k <= decls@.len(),
            all == alto_ast::interpretation_views(decls@),
            draft::slot_views(slots@) == draft::slots_of(all),
            draft::slots_differ(draft::slot_views(slots@)),
            d.algebra_names.len() == slots@.len(),
            forall|i: int|
                0 <= i < slots@.len() ==> (#[trigger] slots@[i]).names@ == d.algebra_names[i],
            forall|j: int| 0 <= j < k ==> #[trigger] decl_fault(all, d, j) is None,
        decreases decls@.len() - k,
    {
        let decl = &decls[k];
        assert(all[k as int] == decl@);
        let kind = match algebra_kind(&decl.algebra) {
            Some(kind) => kind,
            None => {
                assert(first_decl_fault(all, d, k as int));
                return Some(
                    IrtgError::UnsupportedAlgebra {
                        interpretation: text::copy_text(&decl.name),
                        class_name: text::copy_text(&decl.algebra),
                    },
                );
            },
        };
        if kind == InterpretationKind::BinarizedTagTree && !is_seen_before(decls, k) {
            let found: Option<usize> = find_slot(slots, &decl.name);
            proof {
                lemma_declared_slot(all, k as int);
            }
            if let Some(i) = found {
                let name: String = "_@_".to_owned();
                let known: Option<Symbol> = slots[i].names.get(&name);
                if let Some(f) = known {
                    let first: usize = slots[i].names.arity(f);
                    if first != 2 {
                        assert(first_decl_fault(all, d, k as int));
                        return Some(
                            IrtgError::Signature(
                                SignatureError::ArityMismatch { name, first, second: 2 },
                            ),
                        );
                    }
                }
            }
        }
        assert(decl_fault(all, d, k as int) is None);
        k += 1;
    }
    None
}

/// Every declared interpretation has a place.
proof fn lemma_declared_slot(decls: Seq<(Seq<char>, Seq<char>)>, k: int)
    requires
        0 <= k < decls.len(),
    ensures
        draft::slot_of(draft::slots_of(decls), decls[k].0) is Some,
    decreases decls.len(),
{
    let before = draft::slots_of(decls.drop_last());
    let now = draft::slots_of(decls);
    if k == decls.len() - 1 {
        match draft::slot_of(before, decls.last().0) {
            Some(i) => {
                assert(now[i].0 == decls[k].0);
            },
            None => {
                assert(now[before.len() as int].0 == decls[k].0);
            },
        }
    } else {
        lemma_declared_slot(decls.drop_last(), k);
        let j = draft::slot_of(before, decls[k].0)->0;
        assert(before[j].0 == decls[k].0);
        match draft::slot_of(before, decls.last().0) {
            Some(i) => {
                assert(before[i].0 == decls.last().0);
                assert(now[j].0 == decls[k].0);
            },
            None => {
                assert(now[j].0 == decls[k].0);
            },
        }
    }
}

/// The handles of the images of one interpretation.
fn entries_of(images: &Vec<ImageEntry>, slot: usize, Ghost(slots): Ghost<Seq<Slot>>) -> (r: Vec<
    (Symbol, usize, Tree),
>)
    requires
        slot < slots.len(),
        forall|k: int| 0 <= k < images@.len() ==> draft::entry_ok(slots, #[trigger] images@[k]),
    ensures
        grammar::handle_images(arena::hom_nodes(slots[slot as int].nodes), r@)
            == grammar::slot_images(draft::image_views(slots, images@), slot as nat),
        forall|i: int|
            0 <= i < r@.len() ==> arena::tree_number((#[trigger] r@[i]).2) < arena::hom_nodes(
                slots[slot as int].nodes,
            ).len(),
{
    let ghost all = draft::image_views(slots, images@);
    let ghost nodes = arena::hom_nodes(slots[slot as int].nodes);
    let mut r: Vec<(Symbol, usize, Tree)> = Vec::new();
    let mut k: usize = 0;
    assert(grammar::handle_images(nodes, r@) =~= grammar::slot_images(all.take(0), slot as nat));
    while k < images.len()
        invariant
            k <= images@.len(),
            slot < slots.len(),
            all == draft::image_views(slots, images@),
            nodes == arena::hom_nodes(slots[slot as int].nodes),
            forall|j: int| 0 <= j < images@.len() ==> draft::entry_ok(slots, #[trigger] images@[j]),
            grammar::handle_images(nodes, r@) == grammar::slot_images(
                all.take(k as int),
                slot as nat,
            ),
            forall|i: int|
                0 <= i < r@.len() ==> arena::tree_number((#[trigger] r@[i]).2) < nodes.len(),
        decreases images@.len() - k,
    {
        let entry = &images[k];
        assert(draft::entry_ok(slots, images@[k as int]));
        proof {
            let now = all.take(k + 1);
            assert(now.drop_last() =~= all.take(k as int));
            assert(now.last() == draft::image_view(slots, *entry));
        }
        if entry.slot == slot {
            let ghost before = r@;
            r.push((entry.symbol, entry.arity, entry.term));
            proof {
                let last = (entry.symbol, entry.arity, entry.term);
                assert(r@ == before.push(last));
                assert(grammar::handle_images(nodes, r@) =~= grammar::handle_images(
                    nodes,
                    before,
                ).push(
                    (
                        entry.symbol,
                        entry.arity,
                        crate::terms::term_at(nodes, arena::tree_number(entry.term)),
                    ),
                ));
            }
        }
        k += 1;
    }
    assert(all.take(k as int) =~= all);
    r
}

/// Makes the interpretations.
fn make_interpretations(
    decls: &Vec<AstInterpretationDecl>,
    slots: Vec<Slot>,
    images: &Vec<ImageEntry>,
    Ghost(d): Ghost<Draft>,
) -> (r: Vec<Interpretation>)
    requires
        draft::slot_views(slots@) == draft::slots_of(alto_ast::interpretation_views(decls@)),
        draft::slots_differ(draft::slot_views(slots@)),
        forall|i: int|
            0 <= i < slots@.len() ==> arena::children_first(
                arena::hom_nodes((#[trigger] slots@[i]).nodes),
            ),
        forall|k: int| 0 <= k < images@.len() ==> draft::entry_ok(slots@, #[trigger] images@[k]),
        d.images == draft::image_views(slots@, images@),
        d.algebra_names.len() == slots@.len(),
        forall|i: int|
            0 <= i < slots@.len() ==> (#[trigger] slots@[i]).names@ == d.algebra_names[i]
                && slots@[i].names@.len() < u32::MAX,
        grammar::registrable(d.images),
        decls_ok(alto_ast::interpretation_views(decls@), d),
    ensures
        interpretation_views(r@) == assembled(
            alto_ast::interpretation_views(decls@),
            d,
        ).interpretations,
{
    let ghost all = alto_ast::interpretation_views(decls@);
    let ghost given = slots@;
    let ghost expected = assembled(all, d).interpretations;
    let mut rest = slots;
    let mut r: Vec<Interpretation> = Vec::new();
    let n: usize = rest.len();
    let mut i: usize = 0;
    assert(given.skip(0) =~= given);
    while i < n
        invariant
            i <= n,
            n == given.len(),
            all == alto_ast::interpretation_views(decls@),
            expected == assembled(all, d).interpretations,
            rest@ == given.skip(i as int),
            draft::slot_views(given) == draft::slots_of(all),
            draft::slots_differ(draft::slot_views(given)),
            forall|j: int|
                0 <= j < given.len() ==> arena::children_first(
                    arena::hom_nodes((#[trigger] given[j]).nodes),
                ),
            forall|k: int|
                0 <= k < images@.len() ==> draft::entry_ok(given, #[trigger] images@[k]),
            d.images == draft::image_views(given, images@),
            d.algebra_names.len() == given.len(),
            forall|j: int|
                0 <= j < given.len() ==> (#[trigger] given[j]).names@ == d.algebra_names[j]
                    && given[j].names@.len() < u32::MAX,
            grammar::registrable(d.images),
            decls_ok(all, d),
            r@.len() == i,
            forall|j: int| 0 <= j < i ==> (#[trigger] r@[j])@ == expected[j],
        decreases n - i,
    {
        let slot = rest.remove(0);
        proof {
            assert(slot == given[i as int]);
            assert(rest@ =~= given.skip(i + 1));
            assert(draft::slots_of(all)[i as int] == (slot.name@, slot.algebra@));
        }
        let once = is_declared_once(decls, &slot.name);
        let kind = match algebra_kind(&slot.algebra) {
            Some(kind) => kind,
            None => InterpretationKind::OutputOnly,
        };
        proof {
            let k = lemma_slot_declared(all, i as int);
            assert(decl_fault(all, d, k) is None);
            if once && kind == InterpretationKind::BinarizedTagTree {
                if seen_before(all, k) {
                    let j = choose|j: int| 0 <= j < k && (#[trigger] all[j]).0 == all[k].0;
                    assert(all[j].0 == slot.name@);
                }
                draft::lemma_slot(draft::slots_of(all), slot.name@, i as int);
            }
        }
        let ghost base = if once {
            slot.names@
        } else {
            NameList::empty()
        };
        let Slot { name, algebra, names: slot_names, nodes: slot_nodes } = slot;
        let (mut names, nodes, list) = if once {
            let list = entries_of(images, i, Ghost(given));
            (slot_names, slot_nodes, list)
        } else {
            let none: Vec<(Symbol, usize, Tree)> = Vec::new();
            (Signature::new(), hom_arena(), none)
        };
        if kind == InterpretationKind::BinarizedTagTree {
            let _ = names.intern("_@_".to_owned(), 2);
        }
        proof {
            let terms = grammar::handle_images(arena::hom_nodes(nodes), list@);
            if once {
                assert(grammar::slot_registrable(d.images, i as nat));
                let m = choose|m: HomModel|
                    grammar::registered(grammar::slot_images(d.images, i as nat), m);
                assert(grammar::registered(terms, m));
            } else {
                assert(terms =~= Seq::<(Symbol, usize, Term)>::empty());
                assert(grammar::registered(terms, grammar::empty_hom()));
            }
        }
        let one = Interpretation::new(name, algebra, kind, names, nodes, list);
        proof {
            assert(one@.names == interpretation_at(all, d, i as int).names);
            assert(one@ == interpretation_at(all, d, i as int));
        }
        r.push(one);
        i += 1;
    }
    assert(interpretation_views(r@) =~= expected);
    r
}

/// Builds a grammar from its declarations and rules.
pub fn build_irtg(ast: &AstIrtg) -> (r: Result<Irtg, IrtgError>)
    requires
        draft::rules_size(ast@.rules) < u32::MAX,
    ensures
        build_outcome(ast@, r),
{
    let ghost decls = ast@.interpretations;
    let (work, fault) = draft_grammar(&ast.interpretations, &ast.rules);
    let ghost d = draft::drafted(draft::slots_of(decls), ast@.rules).0;
    let bad = check_images(&work.slots, &work.images);
    if let Some(e) = bad {
        proof {
            let k = choose|k: int| #[trigger] grammar::bad_image(d.images, k, e);
            lemma_bad_image(d.images, k, e);
        }
        return Err(IrtgError::Homomorphism(e));
    }
    if let Some(e) = fault {
        return Err(
            match e {
                DraftError::UnknownInterpretation(name) => IrtgError::UnknownInterpretation(name),
                DraftError::Lower(LowerError::ZeroVariable) => IrtgError::ZeroVariable,
                DraftError::Lower(LowerError::Signature(s)) => IrtgError::Signature(s),
            },
        );
    }
    proof {
        assert forall|i: int| 0 <= i < work.slots@.len() implies (#[trigger] work.slots@[i]).names@
            == d.algebra_names[i] by {
            assert(work.draft().algebra_names[i] == work.slots@[i].names@);
        }
    }
    let wrong = check_decls(&ast.interpretations, &work.slots, Ghost(d));
    if let Some(e) = wrong {
        proof {
            let k = choose|k: int| #[trigger]
                first_decl_fault(decls, d, k) && says(decls[k], decl_fault(decls, d, k)->0, e);
            assert(decl_fault(decls, d, k) is Some);
            assert(!decls_ok(decls, d));
        }
        return Err(e);
    }
    let Drafting { builder, states, names, slots, images } = work;
    let interpretations = make_interpretations(&ast.interpretations, slots, &images, Ghost(d));
    match builder.try_build() {
        Ok(grammar) => {
            proof {
                ranks::lemma_assembled(decls, ast@.rules);
                assert(IrtgModel {
                    automaton: grammar@,
                    states: text::texts(states@),
                    names: names@,
                    interpretations: interpretation_views(interpretations@),
                } == assembled(decls, d));
            }
            let g = Irtg { grammar, states, grammar_signature: names, interpretations };
            assert(g@ == assembled(decls, d));
            Ok(g)
        },
        Err(e) => Err(IrtgError::Automaton(e)),
    }
}

} // verus!
