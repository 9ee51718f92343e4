//! The automaton, the signatures and the images that the rules of a grammar declare.
use super::lowering;
use super::lowering::{
    lower_hom_term, normalize_legacy_feature_term, LowerError, LowerFault,
};
use crate::alto_ast;
use crate::alto_ast::{AstHomRule, AstInterpretationDecl, AstRule, AstState, HomAst, RuleAst};
use crate::arena;
use crate::arena::hom_arena;
use crate::automaton;
use crate::automaton::RuleModel;
use crate::builder::ExplicitBuilder;
use crate::homomorphism::HomLabel;
use crate::ids::{StateId, Symbol};
use crate::interner;
use crate::interner::Interner;
use crate::signature;
use crate::signature::{NameList, Signature, SignatureFault};
use crate::terms;
use crate::terms::Term;
use crate::text;
use crate::traits;
use crate::traits::StateKey;
use crate::weight::Weight;
use packed_term_arena::tree::{Tree, TreeArena};
use vstd::prelude::*;

verus! {

/// The interpretations by name, with the algebra that was declared last for each.
pub type SlotList = Seq<(Seq<char>, Seq<char>)>;

/// The image of one rule in one interpretation.
pub struct Image {
    pub slot: nat,
    pub symbol: Symbol,
    pub arity: usize,
    pub term: Term,
}

/// What the rules read so far declare.
pub struct Draft {
    /// The state names, in the order of the states.
    pub states: Seq<Seq<char>>,
    pub accepting: Set<StateId>,
    pub rules: Seq<RuleModel>,
    /// The grammar symbols.
    pub names: NameList,
    /// The algebra symbols of each interpretation.
    pub algebra_names: Seq<NameList>,
    /// The images, in the order of the rules.
    pub images: Seq<Image>,
}

/// What keeps a rule from being read.
pub enum DraftFault {
    UnknownInterpretation(Seq<char>),
    ZeroVariable,
    Signature(SignatureFault),
}

/// The place of an interpretation.
pub open spec fn slot_of(slots: SlotList, name: Seq<char>) -> Option<int> {
    if exists|i: int| 0 <= i < slots.len() && (#[trigger] slots[i]).0 == name {
        Some(choose|i: int| 0 <= i < slots.len() && (#[trigger] slots[i]).0 == name)
    } else {
        None
    }
}

/// Whether no interpretation has two places.
pub open spec fn slots_differ(slots: SlotList) -> bool {
    forall|i: int, j: int|
        0 <= i < j < slots.len() ==> (#[trigger] slots[i]).0 != (#[trigger] slots[j]).0
}

/// The interpretations after one more declaration.
pub open spec fn with_decl(slots: SlotList, decl: (Seq<char>, Seq<char>)) -> SlotList {
    match slot_of(slots, decl.0) {
        Some(i) => slots.update(i, decl),
        None => slots.push(decl),
    }
}

/// The interpretations that declarations make.
pub open spec fn slots_of(decls: Seq<(Seq<char>, Seq<char>)>) -> SlotList
    decreases decls.len(),
{
    if decls.len() == 0 {
        Seq::empty()
    } else {
        with_decl(slots_of(decls.drop_last()), decls.last())
    }
}

/// The draft and the state for a mention of a state.
pub open spec fn with_state(d: Draft, s: (Seq<char>, bool)) -> (Draft, StateId) {
    let known = d.states.contains(s.0);
    let id = StateId(
        (if known {
            d.states.index_of(s.0)
        } else {
            d.states.len() as int
        }) as u32,
    );
    (
        Draft {
            states: if known {
                d.states
            } else {
                d.states.push(s.0)
            },
            accepting: if s.1 {
                d.accepting.insert(id)
            } else {
                d.accepting
            },
            ..d
        },
        id,
    )
}

/// The draft and the states for mentions of states.
pub open spec fn with_states(d: Draft, list: Seq<(Seq<char>, bool)>) -> (Draft, Seq<StateId>)
    decreases list.len(),
{
    if list.len() == 0 {
        (d, Seq::empty())
    } else {
        let (before, ids) = with_states(d, list.drop_last());
        let (after, id) = with_state(before, list.last());
        (after, ids.push(id))
    }
}

/// The weight of a rule, one where none is given.
pub open spec fn weight_of(w: Option<Weight>) -> Weight {
    match w {
        Some(w) => w,
        None => Weight { bits: crate::weight::ONE_BITS },
    }
}

/// The draft and the symbol of an automaton rule.
pub open spec fn with_rule(d: Draft, r: RuleAst) -> Result<(Draft, Symbol), SignatureFault> {
    let (d1, parent) = with_state(d, (r.parent, r.is_final));
    let (d2, ids) = with_states(d1, r.children);
    match signature::interned(d2.names, r.symbol, r.children.len() as usize) {
        Ok((f, names)) => Ok(
            (
                Draft {
                    names,
                    rules: d2.rules.push(
                        RuleModel {
                            symbol: f,
                            children: ids,
                            result: parent,
                            weight: weight_of(r.weight),
                        },
                    ),
                    ..d2
                },
                f,
            ),
        ),
        Err(e) => Err(e),
    }
}

/// An image as it is read in an interpretation.
pub open spec fn read_image(algebra: Seq<char>, t: HomAst) -> HomAst {
    if algebra == "de.up.ling.irtg.algebra.FeatureStructureAlgebra"@ {
        lowering::normalized(t)
    } else {
        t
    }
}

/// The draft with one more image.
pub open spec fn with_image(
    slots: SlotList,
    d: Draft,
    f: Symbol,
    arity: usize,
    hom: (Seq<char>, HomAst),
) -> Result<Draft, DraftFault> {
    match slot_of(slots, hom.0) {
        None => Err(DraftFault::UnknownInterpretation(hom.0)),
        Some(i) => match lowering::lowered(read_image(slots[i].1, hom.1), d.algebra_names[i]) {
            Ok((term, names)) => Ok(
                Draft {
                    algebra_names: d.algebra_names.update(i, names),
                    images: d.images.push(Image { slot: i as nat, symbol: f, arity, term }),
                    ..d
                },
            ),
            Err(LowerFault::ZeroVariable) => Err(DraftFault::ZeroVariable),
            Err(LowerFault::Signature(e)) => Err(DraftFault::Signature(e)),
        },
    }
}

/// The draft with images up to the first fault.
pub open spec fn with_images(
    slots: SlotList,
    d: Draft,
    f: Symbol,
    arity: usize,
    homs: Seq<(Seq<char>, HomAst)>,
) -> (Draft, Option<DraftFault>)
    decreases homs.len(),
{
    if homs.len() == 0 {
        (d, None)
    } else {
        let (before, fault) = with_images(slots, d, f, arity, homs.drop_last());
        if fault is Some {
            (before, fault)
        } else {
            match with_image(slots, before, f, arity, homs.last()) {
                Ok(after) => (after, None),
                Err(e) => (before, Some(e)),
            }
        }
    }
}

/// The draft with one more rule, up to the first fault.
pub open spec fn with_whole_rule(slots: SlotList, d: Draft, r: RuleAst) -> (
    Draft,
    Option<DraftFault>,
) {
    match with_rule(d, r) {
        Err(e) => (d, Some(DraftFault::Signature(e))),
        Ok((after, f)) => with_images(slots, after, f, r.children.len() as usize, r.homs),
    }
}

/// What a grammar without rules declares.
pub open spec fn empty_draft(slots: SlotList) -> Draft {
    Draft {
        states: Seq::empty(),
        accepting: Set::empty(),
        rules: Seq::empty(),
        names: Seq::empty(),
        algebra_names: Seq::new(slots.len(), |i: int| NameList::empty()),
        images: Seq::empty(),
    }
}

/// What rules declare, up to the first fault.
pub open spec fn drafted(slots: SlotList, rules: Seq<RuleAst>) -> (Draft, Option<DraftFault>)
    decreases rules.len(),
{
    if rules.len() == 0 {
        (empty_draft(slots), None)
    } else {
        let (before, fault) = drafted(slots, rules.drop_last());
        if fault is Some {
            (before, fault)
        } else {
            with_whole_rule(slots, before, rules.last())
        }
    }
}

/// The number of nodes of images.
pub open spec fn homs_size(homs: Seq<(Seq<char>, HomAst)>) -> nat
    decreases homs.len(),
{
    if homs.len() == 0 {
        0
    } else {
        homs_size(homs.drop_last()) + lowering::term_size(homs.last().1)
    }
}

/// The number of states, symbols and nodes that a rule mentions.
pub open spec fn rule_size(r: RuleAst) -> nat {
    2 + r.children.len() + homs_size(r.homs)
}

/// The number of states, symbols and nodes that rules mention.
pub open spec fn rules_size(rules: Seq<RuleAst>) -> nat
    decreases rules.len(),
{
    if rules.len() == 0 {
        0
    } else {
        rules_size(rules.drop_last()) + rule_size(rules.last())
    }
}

/// Renaming operations keeps the size of a term.
pub proof fn lemma_normalized_size(t: HomAst)
    ensures
        lowering::term_size(lowering::normalized(t)) == lowering::term_size(t),
    decreases t,
{
    if let HomAst::Symbol(label, children) = t {
        let now = lowering::all_normalized(children);
        assert(lowering::normalized(t)->Symbol_1 =~= now);
        assert forall|i: int| 0 <= i < children.len() implies lowering::term_size(
            #[trigger] now[i],
        ) == lowering::term_size(children[i]) by {
            lemma_normalized_size(children[i]);
        }
        lemma_list_size_equal(now, children);
    }
}

proof fn lemma_list_size_equal(a: Seq<HomAst>, b: Seq<HomAst>)
    requires
        a.len() == b.len(),
        forall|i: int|
            0 <= i < a.len() ==> lowering::term_size(#[trigger] a[i]) == lowering::term_size(b[i]),
    ensures
        lowering::list_size(a) == lowering::list_size(b),
    decreases a.len(),
{
    if a.len() > 0 {
        assert(lowering::term_size(a[a.len() - 1]) == lowering::term_size(b[b.len() - 1]));
        assert forall|i: int| 0 <= i < a.drop_last().len() implies lowering::term_size(
            #[trigger] a.drop_last()[i],
        ) == lowering::term_size(b.drop_last()[i]) by {
            assert(lowering::term_size(a[i]) == lowering::term_size(b[i]));
        }
        lemma_list_size_equal(a.drop_last(), b.drop_last());
    }
}

/// Why a rule cannot be read.
#[derive(Debug)]
pub enum DraftError {
    UnknownInterpretation(String),
    Lower(LowerError),
}

impl View for DraftError {
    type V = DraftFault;

    open spec fn view(&self) -> DraftFault {
        match self {
            DraftError::UnknownInterpretation(name) => DraftFault::UnknownInterpretation(name@),
            DraftError::Lower(LowerError::ZeroVariable) => DraftFault::ZeroVariable,
            DraftError::Lower(LowerError::Signature(e)) => DraftFault::Signature(e@),
        }
    }
}

/// An interpretation whose images are being collected.
pub struct Slot {
    pub name: String,
    pub algebra: String,
    pub names: Signature,
    pub nodes: TreeArena<HomLabel>,
}

/// The image of one rule in one interpretation.
pub struct ImageEntry {
    pub slot: usize,
    pub symbol: Symbol,
    pub arity: usize,
    pub term: Tree,
}

/// What the rules read so far declare.
pub struct Drafting {
    pub builder: ExplicitBuilder,
    pub states: Interner<String>,
    pub names: Signature,
    pub slots: Vec<Slot>,
    pub images: Vec<ImageEntry>,
}

/// The names and algebras of slots.
pub open spec fn slot_views(slots: Seq<Slot>) -> SlotList {
    Seq::new(slots.len(), |i: int| (slots[i].name@, slots[i].algebra@))
}

/// What an image entry says.
pub open spec fn image_view(slots: Seq<Slot>, e: ImageEntry) -> Image {
    Image {
        slot: e.slot as nat,
        symbol: e.symbol,
        arity: e.arity,
        term: terms::term_at(
            arena::hom_nodes(slots[e.slot as int].nodes),
            arena::tree_number(e.term),
        ),
    }
}

/// What image entries say.
pub open spec fn image_views(slots: Seq<Slot>, list: Seq<ImageEntry>) -> Seq<Image> {
    Seq::new(list.len(), |i: int| image_view(slots, list[i]))
}

/// Whether an image entry names a node of its interpretation's arena.
pub open spec fn entry_ok(slots: Seq<Slot>, e: ImageEntry) -> bool {
    e.slot < slots.len() && arena::tree_number(e.term) < arena::hom_nodes(
        slots[e.slot as int].nodes,
    ).len()
}

impl Drafting {
    /// Whether handles are valid and states are counted once.
    pub open spec fn ok(&self) -> bool {
        &&& slots_differ(slot_views(self.slots@))
        &&& forall|i: int|
            0 <= i < self.slots@.len() ==> arena::children_first(
                arena::hom_nodes((#[trigger] self.slots@[i]).nodes),
            )
        &&& forall|k: int| 0 <= k < self.images@.len() ==> entry_ok(self.slots@, #[trigger] self.images@[k])
        &&& self.builder@.states == self.states@.len()
        &&& text::texts(self.states@).no_duplicates()
    }

    /// What has been declared.
    pub open spec fn draft(&self) -> Draft {
        Draft {
            states: text::texts(self.states@),
            accepting: self.builder@.accepting,
            rules: self.builder@.rules,
            names: self.names@,
            algebra_names: Seq::new(self.slots@.len(), |i: int| self.slots@[i].names@),
            images: image_views(self.slots@, self.images@),
        }
    }

    /// Whether at most `n` states, symbols and rules are there so far.
    pub open spec fn within(&self, n: int) -> bool {
        &&& self.states@.len() <= n
        &&& self.names@.len() <= n
        &&& self.builder@.rules.len() <= n
        &&& forall|i: int| 0 <= i < self.slots@.len() ==> (#[trigger] self.slots@[i]).names@.len() <= n
    }
}

proof fn lemma_state_known(list: Seq<String>, name: String)
    ensures
        interner::known(list, name.key()) <==> text::texts(list).contains(name@),
{
    if interner::known(list, name.key()) {
        let i = choose|i: int| #[trigger] interner::keyed(list, i, name.key());
        traits::lemma_text_key_injective(list[i]@, name@);
        assert(text::texts(list)[i] == name@);
    }
    if text::texts(list).contains(name@) {
        let i = choose|i: int| 0 <= i < text::texts(list).len() && text::texts(list)[i] == name@;
        assert(interner::keyed(list, i, name.key()));
    }
}

impl Drafting {
    /// The state for a mention of a state.
    fn state(&mut self, s: &AstState) -> (id: StateId)
        requires
            old(self).ok(),
            old(self).states@.len() < u32::MAX,
        ensures
            final(self).ok(),
            (final(self).draft(), id) == with_state(old(self).draft(), s@),
            id.0 < final(self).states@.len(),
            final(self).states@.len() <= old(self).states@.len() + 1,
            old(self).states@.len() <= final(self).states@.len(),
            final(self).slots == old(self).slots,
            final(self).images == old(self).images,
            final(self).names == old(self).names,
            final(self).builder@.rules == old(self).builder@.rules,
    {
        let ghost before = self.draft();
        let ghost list = self.states@;
        let name = text::copy_text(&s.name);
        proof {
            lemma_state_known(list, name);
        }
        let found: Option<StateId> = self.states.get(&name);
        let id: StateId = match found {
            Some(id) => {
                proof {
                    let i = id.0 as int;
                    traits::lemma_text_key_injective(list[i]@, name@);
                    assert(text::texts(list)[i] == name@);
                    let j = text::texts(list).index_of(name@);
                    assert(text::texts(list)[j] == name@);
                    assert(i == j);
                }
                id
            },
            None => {
                let fresh: StateId = self.builder.new_state();
                let id: StateId = self.states.intern(name);
                proof {
                    let now = self.states@;
                    assert(text::texts(now) =~= text::texts(list).push(name@));
                    assert forall|i: int, j: int|
                        0 <= i < j < text::texts(now).len() implies text::texts(now)[i]
                        != text::texts(now)[j] by {
                        if j == list.len() {
                            assert(text::texts(list).contains(text::texts(list)[i]));
                        } else {
                            assert(text::texts(list)[i] != text::texts(list)[j]);
                        }
                    }
                    assert(fresh == id);
                }
                id
            },
        };
        if s.is_final {
            self.builder.add_accepting(id);
        }
        proof {
            let after = self.draft();
            let expected = with_state(before, s@).0;
            assert(after.states =~= expected.states);
            assert(after.accepting =~= expected.accepting);
            assert(after.algebra_names =~= expected.algebra_names);
            assert(after.images =~= expected.images);
            assert(after == expected);
        }
        id
    }

    /// The states for mentions of states.
    fn state_list(&mut self, list: &Vec<AstState>) -> (ids: Vec<StateId>)
        requires
            old(self).ok(),
            old(self).states@.len() + list@.len() < u32::MAX,
        ensures
            final(self).ok(),
            (final(self).draft(), ids@) == with_states(
                old(self).draft(),
                alto_ast::state_views(list@),
            ),
            forall|i: int| 0 <= i < ids@.len() ==> (#[trigger] ids@[i]).0 < final(self).states@.len(),
            ids@.len() == list@.len(),
            final(self).states@.len() <= old(self).states@.len() + list@.len(),
            old(self).states@.len() <= final(self).states@.len(),
            final(self).slots == old(self).slots,
            final(self).images == old(self).images,
            final(self).names == old(self).names,
            final(self).builder@.rules == old(self).builder@.rules,
    {
        let ghost start = self.draft();
        let ghost all = alto_ast::state_views(list@);
        let mut ids: Vec<StateId> = Vec::new();
        let mut i: usize = 0;
        assert(all.take(0) =~= Seq::<(Seq<char>, bool)>::empty());
        assert(ids@ =~= Seq::<StateId>::empty());
        while i < list.len()
            invariant
                i <= list@.len(),
                self.ok(),
                all == alto_ast::state_views(list@),
                start == old(self).draft(),
                (self.draft(), ids@) == with_states(start, all.take(i as int)),
                ids@.len() == i,
                forall|j: int| 0 <= j < ids@.len() ==> (#[trigger] ids@[j]).0 < self.states@.len(),
                old(self).states@.len() + list@.len() < u32::MAX,
                self.states@.len() <= old(self).states@.len() + i,
                old(self).states@.len() <= self.states@.len(),
                self.slots == old(self).slots,
                self.images == old(self).images,
                self.names == old(self).names,
                self.builder@.rules == old(self).builder@.rules,
            decreases list@.len() - i,
        {
            proof {
                let now = all.take(i + 1);
                assert(now.drop_last() =~= all.take(i as int));
                assert(now.last() == list@[i as int]@);
            }
            let id: StateId = self.state(&list[i]);
            ids.push(id);
            i += 1;
        }
        assert(all.take(i as int) =~= all);
        ids
    }

    /// Adds an automaton rule.
    fn rule(&mut self, r: &AstRule, Ghost(n): Ghost<int>) -> (f: Result<Symbol, DraftError>)
        requires
            old(self).ok(),
            old(self).within(n),
            n + 2 + r.auto.children@.len() < u32::MAX,
        ensures
            final(self).ok(),
            match f {
                Ok(f) => with_rule(old(self).draft(), r@) == Ok::<(Draft, Symbol), SignatureFault>(
                    (final(self).draft(), f),
                ),
                Err(e) => with_rule(old(self).draft(), r@) is Err && e@ == DraftFault::Signature(
                    with_rule(old(self).draft(), r@)->Err_0,
                ),
            },
            final(self).slots == old(self).slots,
            final(self).images == old(self).images,
            f is Ok ==> final(self).within(n + 1 + r.auto.children@.len()),
    {
        let ghost start = self.draft();
        let parent: StateId = self.state(&r.auto.parent);
        let ids: Vec<StateId> = self.state_list(&r.auto.children);
        let arity: usize = ids.len();
        let ghost middle = self.draft();
        match self.names.intern(text::copy_text(&r.auto.symbol), arity) {
            Ok(f) => {
                let weight = match r.auto.weight {
                    Some(w) => w,
                    None => Weight::one(),
                };
                self.builder.add_weighted_rule(f, ids, parent, weight);
                proof {
                    let after = self.draft();
                    assert(after.algebra_names =~= middle.algebra_names);
                    assert(after.images =~= middle.images);
                    assert(after == with_rule(start, r@)->Ok_0.0);
                }
                Ok(f)
            },
            Err(e) => Err(DraftError::Lower(LowerError::Signature(e))),
        }
    }
}

/// The place of an interpretation is the only one with its name.
pub proof fn lemma_slot(slots: SlotList, name: Seq<char>, i: int)
    requires
        slots_differ(slots),
        0 <= i < slots.len(),
        slots[i].0 == name,
    ensures
        slot_of(slots, name) == Some(i),
{
    let j = choose|j: int| 0 <= j < slots.len() && (#[trigger] slots[j]).0 == name;
    if j < i {
        assert(slots[j].0 != slots[i].0);
    }
    if i < j {
        assert(slots[i].0 != slots[j].0);
    }
}

/// The place of an interpretation.
pub fn find_slot(slots: &Vec<Slot>, name: &String) -> (r: Option<usize>)
    requires
        slots_differ(slot_views(slots@)),
    ensures
        match r {
            Some(i) => i < slots@.len() && slot_of(slot_views(slots@), name@) == Some(i as int),
            None => slot_of(slot_views(slots@), name@) is None,
        },
{
    let mut i: usize = 0;
    while i < slots.len()
        invariant
            i <= slots@.len(),
            slots_differ(slot_views(slots@)),
            forall|j: int| 0 <= j < i ==> (#[trigger] slot_views(slots@)[j]).0 != name@,
        decreases slots@.len() - i,
    {
        assert(slot_views(slots@)[i as int].0 == slots@[i as int].name@);
        if text::same_text(&slots[i].name, name) {
            proof {
                lemma_slot(slot_views(slots@), name@, i as int);
            }
            return Some(i);
        }
        i += 1;
    }
    None
}

/// Entries of an arena that grew say what they said.
proof fn lemma_images_stable(a: Seq<Slot>, b: Seq<Slot>, i: int, list: Seq<ImageEntry>)
    requires
        a.len() == b.len(),
        0 <= i < a.len(),
        forall|j: int| 0 <= j < a.len() && j != i ==> #[trigger] b[j] == a[j],
        arena::children_first(arena::hom_nodes(a[i].nodes)),
        lowering::continues(arena::hom_nodes(a[i].nodes), arena::hom_nodes(b[i].nodes)),
        forall|k: int| 0 <= k < list.len() ==> entry_ok(a, #[trigger] list[k]),
    ensures
        forall|k: int| 0 <= k < list.len() ==> entry_ok(b, #[trigger] list[k]),
        image_views(b, list) == image_views(a, list),
{
    assert forall|k: int| 0 <= k < list.len() implies entry_ok(b, #[trigger] list[k]) && image_view(
        b,
        list[k],
    ) == image_view(a, list[k]) by {
        assert(entry_ok(a, list[k]));
        if list[k].slot == i {
            lowering::lemma_term_stable(
                arena::hom_nodes(a[i].nodes),
                arena::hom_nodes(b[i].nodes),
                arena::tree_number(list[k].term),
            );
        } else {
            assert(b[list[k].slot as int] == a[list[k].slot as int]);
        }
    }
    assert(image_views(b, list) =~= image_views(a, list));
}

impl Drafting {
    /// Adds one image.
    fn image(&mut self, f: Symbol, arity: usize, hom: &AstHomRule, Ghost(n): Ghost<int>) -> (r: Result<
        (),
        DraftError,
    >)
        requires
            old(self).ok(),
            old(self).within(n),
            n + lowering::term_size(hom.term@) < u32::MAX,
        ensures
            final(self).ok(),
            slot_views(final(self).slots@) == slot_views(old(self).slots@),
            match r {
                Ok(()) => with_image(
                    slot_views(old(self).slots@),
                    old(self).draft(),
                    f,
                    arity,
                    hom@,
                ) == Ok::<Draft, DraftFault>(final(self).draft()),
                Err(e) => with_image(
                    slot_views(old(self).slots@),
                    old(self).draft(),
                    f,
                    arity,
                    hom@,
                ) == Err::<Draft, DraftFault>(e@) && final(self).draft().images == old(
                    self,
                ).draft().images,
            },
            r is Ok ==> final(self).within(n + lowering::term_size(hom.term@)),
    {
        let ghost start = self.draft();
        let ghost views = slot_views(self.slots@);
        let found: Option<usize> = find_slot(&self.slots, &hom.interpretation);
        let i: usize = match found {
            Some(i) => i,
            None => {
                return Err(
                    DraftError::UnknownInterpretation(text::copy_text(&hom.interpretation)),
                );
            },
        };
        let ghost before = self.slots@;
        let ghost list = self.images@;
        assert(views[i as int].1 == before[i as int].algebra@);
        assert(start.algebra_names[i as int] == before[i as int].names@);
        proof {
            lemma_normalized_size(hom.term@);
        }
        let feature = text::is_text(
            &self.slots[i].algebra,
            "de.up.ling.irtg.algebra.FeatureStructureAlgebra",
        );
        let ghost read = read_image(before[i as int].algebra@, hom.term@);
        let outcome = if feature {
            let term = normalize_legacy_feature_term(&hom.term);
            lower_in(&mut self.slots, i, &term)
        } else {
            lower_in(&mut self.slots, i, &hom.term)
        };
        proof {
            let after = self.slots@;
            lemma_images_stable(before, after, i as int, list);
            assert(slot_views(after) =~= views);
            assert forall|j: int| 0 <= j < after.len() implies arena::children_first(
                arena::hom_nodes((#[trigger] after[j]).nodes),
            ) by {
                assert(arena::children_first(arena::hom_nodes(before[j].nodes)));
            }
        }
        match outcome {
            Ok(term) => {
                let entry = ImageEntry { slot: i, symbol: f, arity, term };
                self.images.push(entry);
                proof {
                    let after = self.draft();
                    let expected = with_image(views, start, f, arity, hom@)->Ok_0;
                    assert(image_views(self.slots@, self.images@) =~= image_views(
                        self.slots@,
                        list,
                    ).push(image_view(self.slots@, entry)));
                    assert(after.images =~= expected.images);
                    assert(after.algebra_names =~= expected.algebra_names);
                    assert(after == expected);
                    assert forall|j: int| 0 <= j < self.slots@.len() implies (
                    #[trigger] self.slots@[j]).names@.len() <= n + lowering::term_size(
                        hom.term@,
                    ) by {
                        assert(before[j].names@.len() <= n);
                    }
                }
                Ok(())
            },
            Err(e) => Err(DraftError::Lower(e)),
        }
    }

    /// Adds the images of a rule.
    fn image_list(
        &mut self,
        f: Symbol,
        arity: usize,
        homs: &Vec<AstHomRule>,
        Ghost(n): Ghost<int>,
    ) -> (r: Result<(), DraftError>)
        requires
            old(self).ok(),
            old(self).within(n),
            n + homs_size(alto_ast::hom_views(homs@)) < u32::MAX,
        ensures
            final(self).ok(),
            slot_views(final(self).slots@) == slot_views(old(self).slots@),
            ({
                let (d, fault) = with_images(
                    slot_views(old(self).slots@),
                    old(self).draft(),
                    f,
                    arity,
                    alto_ast::hom_views(homs@),
                );
                match r {
                    Ok(()) => fault is None && final(self).draft() == d,
                    Err(e) => fault == Some(e@) && final(self).draft().images == d.images,
                }
            }),
            r is Ok ==> final(self).within(n + homs_size(alto_ast::hom_views(homs@))),
    {
        let ghost start = self.draft();
        let ghost views = slot_views(self.slots@);
        let ghost all = alto_ast::hom_views(homs@);
        let mut i: usize = 0;
        assert(all.take(0) =~= Seq::<(Seq<char>, HomAst)>::empty());
        while i < homs.len()
            invariant
                i <= homs@.len(),
                self.ok(),
                all == alto_ast::hom_views(homs@),
                start == old(self).draft(),
                views == slot_views(old(self).slots@),
                slot_views(self.slots@) == views,
                with_images(views, start, f, arity, all.take(i as int)) == (
                    self.draft(),
                    None::<DraftFault>,
                ),
                self.within(n + homs_size(all.take(i as int))),
                n + homs_size(all) < u32::MAX,
            decreases homs@.len() - i,
        {
            let ghost now = all.take(i + 1);
            proof {
                assert(now.drop_last() =~= all.take(i as int));
                assert(now.last() == homs@[i as int]@);
                lemma_homs_size_take(all, i + 1);
            }
            match self.image(f, arity, &homs[i], Ghost(n + homs_size(all.take(i as int)))) {
                Ok(()) => {},
                Err(e) => {
                    proof {
                        lemma_with_images_fault(views, start, f, arity, all, i + 1);
                    }
                    return Err(e);
                },
            }
            i += 1;
        }
        assert(all.take(i as int) =~= all);
        Ok(())
    }

    /// Adds a rule and its images.
    fn whole_rule(&mut self, r: &AstRule, Ghost(n): Ghost<int>) -> (o: Result<(), DraftError>)
        requires
            old(self).ok(),
            old(self).within(n),
            n + rule_size(r@) < u32::MAX,
        ensures
            final(self).ok(),
            slot_views(final(self).slots@) == slot_views(old(self).slots@),
            ({
                let (d, fault) = with_whole_rule(
                    slot_views(old(self).slots@),
                    old(self).draft(),
                    r@,
                );
                match o {
                    Ok(()) => fault is None && final(self).draft() == d,
                    Err(e) => fault == Some(e@) && final(self).draft().images == d.images,
                }
            }),
            o is Ok ==> final(self).within(n + rule_size(r@)),
    {
        let ghost start = self.draft();
        match self.rule(r, Ghost(n)) {
            Ok(f) => {
                proof {
                    assert(self.draft().images =~= start.images);
                }
                let arity: usize = r.auto.children.len();
                self.image_list(f, arity, &r.homs, Ghost(n + 1 + r.auto.children@.len()))
            },
            Err(e) => {
                assert(self.draft().images =~= start.images);
                Err(e)
            },
        }
    }

    /// Adds all rules.
    pub fn rules(&mut self, rules: &Vec<AstRule>) -> (o: Result<(), DraftError>)
        requires
            old(self).ok(),
            old(self).within(0),
            old(self).draft() == empty_draft(slot_views(old(self).slots@)),
            rules_size(alto_ast::rule_views(rules@)) < u32::MAX,
        ensures
            final(self).ok(),
            slot_views(final(self).slots@) == slot_views(old(self).slots@),
            ({
                let (d, fault) = drafted(
                    slot_views(old(self).slots@),
                    alto_ast::rule_views(rules@),
                );
                match o {
                    Ok(()) => fault is None && final(self).draft() == d,
                    Err(e) => fault == Some(e@) && final(self).draft().images == d.images,
                }
            }),
            o is Ok ==> final(self).within(rules_size(alto_ast::rule_views(rules@)) as int),
    {
        let ghost views = slot_views(self.slots@);
        let ghost all = alto_ast::rule_views(rules@);
        let mut i: usize = 0;
        assert(all.take(0) =~= Seq::<RuleAst>::empty());
        while i < rules.len()
            invariant
                i <= rules@.len(),
                self.ok(),
                all == alto_ast::rule_views(rules@),
                views == slot_views(old(self).slots@),
                slot_views(self.slots@) == views,
                drafted(views, all.take(i as int)) == (self.draft(), None::<DraftFault>),
                self.within(rules_size(all.take(i as int)) as int),
                rules_size(all) < u32::MAX,
            decreases rules@.len() - i,
        {
            let ghost now = all.take(i + 1);
            proof {
                assert(now.drop_last() =~= all.take(i as int));
                assert(now.last() == rules@[i as int]@);
                lemma_rules_size_take(all, i + 1);
            }
            match self.whole_rule(&rules[i], Ghost(rules_size(all.take(i as int)) as int)) {
                Ok(()) => {},
                Err(e) => {
                    proof {
                        lemma_drafted_fault(views, all, i + 1);
                    }
                    return Err(e);
                },
            }
            i += 1;
        }
        assert(all.take(i as int) =~= all);
        Ok(())
    }
}

/// Adds an image to the arena of one interpretation.
fn lower_in(slots: &mut Vec<Slot>, i: usize, term: &alto_ast::AstHomTerm) -> (r: Result<
    Tree,
    LowerError,
>)
    requires
        i < old(slots)@.len(),
        arena::children_first(arena::hom_nodes(old(slots)@[i as int].nodes)),
        old(slots)@[i as int].names@.len() + lowering::term_size(term@) < u32::MAX,
    ensures
        final(slots)@.len() == old(slots)@.len(),
        forall|j: int|
            0 <= j < old(slots)@.len() && j != i ==> #[trigger] final(slots)@[j] == old(slots)@[j],
        ({
            let a = old(slots)@[i as int];
            let b = final(slots)@[i as int];
            &&& b.name == a.name
            &&& b.algebra == a.algebra
            &&& arena::children_first(arena::hom_nodes(b.nodes))
            &&& lowering::continues(arena::hom_nodes(a.nodes), arena::hom_nodes(b.nodes))
            &&& b.names@.len() <= a.names@.len() + lowering::term_size(term@)
            &&& match r {
                Ok(t) => arena::tree_number(t) < arena::hom_nodes(b.nodes).len()
                    && lowering::lowered(term@, a.names@) == Ok::<(Term, NameList), LowerFault>(
                    (terms::term_at(arena::hom_nodes(b.nodes), arena::tree_number(t)), b.names@),
                ),
                Err(e) => lowering::lowered(term@, a.names@) == Err::<
                    (Term, NameList),
                    LowerFault,
                >(e@),
            }
        }),
{
    let slot = &mut slots[i];
    lower_hom_term(term, &mut slot.nodes, &mut slot.names)
}

proof fn lemma_homs_size_take(all: Seq<(Seq<char>, HomAst)>, k: int)
    requires
        0 <= k <= all.len(),
    ensures
        homs_size(all.take(k)) <= homs_size(all),
    decreases all.len(),
{
    if k < all.len() {
        assert(all.drop_last().take(k) =~= all.take(k));
        lemma_homs_size_take(all.drop_last(), k);
    } else {
        assert(all.take(k) =~= all);
    }
}

proof fn lemma_rules_size_take(all: Seq<RuleAst>, k: int)
    requires
        0 <= k <= all.len(),
    ensures
        rules_size(all.take(k)) <= rules_size(all),
    decreases all.len(),
{
    if k < all.len() {
        assert(all.drop_last().take(k) =~= all.take(k));
        lemma_rules_size_take(all.drop_last(), k);
    } else {
        assert(all.take(k) =~= all);
    }
}

proof fn lemma_with_images_fault(
    slots: SlotList,
    d: Draft,
    f: Symbol,
    arity: usize,
    homs: Seq<(Seq<char>, HomAst)>,
    k: int,
)
    requires
        0 <= k <= homs.len(),
        with_images(slots, d, f, arity, homs.take(k)).1 is Some,
    ensures
        with_images(slots, d, f, arity, homs) == with_images(slots, d, f, arity, homs.take(k)),
    decreases homs.len(),
{
    if k < homs.len() {
        assert(homs.drop_last().take(k) =~= homs.take(k));
        lemma_with_images_fault(slots, d, f, arity, homs.drop_last(), k);
    } else {
        assert(homs.take(k) =~= homs);
    }
}

proof fn lemma_drafted_fault(slots: SlotList, rules: Seq<RuleAst>, k: int)
    requires
        0 <= k <= rules.len(),
        drafted(slots, rules.take(k)).1 is Some,
    ensures
        drafted(slots, rules) == drafted(slots, rules.take(k)),
    decreases rules.len(),
{
    if k < rules.len() {
        assert(rules.drop_last().take(k) =~= rules.take(k));
        lemma_drafted_fault(slots, rules.drop_last(), k);
    } else {
        assert(rules.take(k) =~= rules);
    }
}

/// The interpretations that declarations make, without images.
pub fn make_slots(decls: &Vec<AstInterpretationDecl>) -> (slots: Vec<Slot>)
    ensures
        slot_views(slots@) == slots_of(alto_ast::interpretation_views(decls@)),
        slots_differ(slot_views(slots@)),
        forall|i: int|
            0 <= i < slots@.len() ==> arena::hom_nodes((#[trigger] slots@[i]).nodes).len() == 0
                && slots@[i].names@ == NameList::empty(),
{
    let ghost all = alto_ast::interpretation_views(decls@);
    let mut slots: Vec<Slot> = Vec::new();
    let mut i: usize = 0;
    assert(slot_views(slots@) =~= slots_of(all.take(0)));
    while i < decls.len()
        invariant
            i <= decls@.len(),
            all == alto_ast::interpretation_views(decls@),
            slot_views(slots@) == slots_of(all.take(i as int)),
            slots_differ(slot_views(slots@)),
            forall|j: int|
                0 <= j < slots@.len() ==> arena::hom_nodes((#[trigger] slots@[j]).nodes).len() == 0
                    && slots@[j].names@ == NameList::empty(),
        decreases decls@.len() - i,
    {
        let ghost before = slot_views(slots@);
        proof {
            let now = all.take(i + 1);
            assert(now.drop_last() =~= all.take(i as int));
            assert(now.last() == decls@[i as int]@);
        }
        let name = text::copy_text(&decls[i].name);
        let algebra = text::copy_text(&decls[i].algebra);
        let found: Option<usize> = find_slot(&slots, &name);
        match found {
            Some(k) => {
                slots[k].algebra = algebra;
                assert(slot_views(slots@) =~= before.update(k as int, decls@[i as int]@)) by {
                    assert(before[k as int].0 == decls@[i as int].name@);
                }
            },
            None => {
                slots.push(Slot { name, algebra, names: Signature::new(), nodes: hom_arena() });
                proof {
                    let now = slot_views(slots@);
                    assert(now =~= before.push(decls@[i as int]@));
                    assert forall|a: int, b: int| 0 <= a < b < now.len() implies (
                    #[trigger] now[a]).0 != (#[trigger] now[b]).0 by {
                        if b < before.len() {
                            assert(before[a].0 != before[b].0);
                        } else {
                            assert(before[a].0 != decls@[i as int]@.0);
                        }
                    }
                }
            },
        }
        i += 1;
    }
    assert(all.take(i as int) =~= all);
    slots
}

/// What the declarations and rules of a grammar make, up to the first fault.
pub fn draft_grammar(decls: &Vec<AstInterpretationDecl>, rules: &Vec<AstRule>) -> (r: (
    Drafting,
    Option<DraftError>,
))
    requires
        rules_size(alto_ast::rule_views(rules@)) < u32::MAX,
    ensures
        r.0.ok(),
        slot_views(r.0.slots@) == slots_of(alto_ast::interpretation_views(decls@)),
        ({
            let (d, fault) = drafted(
                slots_of(alto_ast::interpretation_views(decls@)),
                alto_ast::rule_views(rules@),
            );
            match r.1 {
                None => fault is None && r.0.draft() == d && r.0.within(
                    rules_size(alto_ast::rule_views(rules@)) as int,
                ),
                Some(e) => fault == Some(e@) && r.0.draft().images == d.images,
            }
        }),
{
    let slots = make_slots(decls);
    let mut work = Drafting {
        builder: ExplicitBuilder::new(),
        states: Interner::new(),
        names: Signature::new(),
        slots,
        images: Vec::new(),
    };
    proof {
        let d = work.draft();
        let e = empty_draft(slot_views(work.slots@));
        assert(d.states =~= e.states);
        assert(d.accepting =~= e.accepting);
        assert(d.algebra_names =~= e.algebra_names);
        assert(d.images =~= e.images);
    }
    match work.rules(rules) {
        Ok(()) => (work, None),
        Err(e) => (work, Some(e)),
    }
}

} // verus!
